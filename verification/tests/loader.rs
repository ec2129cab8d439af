//! A loader at work, with assets in memory.

use atelier_loader::error::{Failure, LoaderError};
use atelier_loader::ids::{
    ArtifactId, AssetRef, AssetTypeId, AssetUuid, IndirectIdentifier, LoadHandle,
};
use atelier_loader::io::LoaderIO;
use atelier_loader::loader::Loader;
use atelier_loader::messages::{
    AssetLoadOp, DataRequest, DataResponse, MetadataRequest, MetadataResponse, ResolveRequest,
    ResolveResponse,
};
use atelier_loader::metadata::{ArtifactMetadata, AssetMetadata};
use atelier_loader::state::LoaderState;
use atelier_loader::storage::{
    AssetStorage, AtomicHandleAllocator, HandleAllocator, IndirectionResolver, LoadInfo, LoadStatus,
    LoaderInfoProvider,
};
use std::cell::RefCell;
use std::collections::{HashMap, HashSet};
use std::rc::Rc;
use std::sync::Arc;
use uuid::Uuid;

const TEXT: AssetTypeId = AssetTypeId(0x7e);

/// An asset as it lies in memory.
struct Source {
    deps: Vec<AssetRef>,
    data: Vec<u8>,
    path: String,
}

/// Where the assets lie, and how requests for them are answered.
#[derive(Default)]
struct World {
    assets: HashMap<u128, Source>,
    /// Assets without metadata in the next answers.
    hidden: HashSet<u128>,
    metadata_fails: bool,
    data_fails: bool,
    resolve_fails: bool,
    changed: Vec<AssetUuid>,
    ticks: usize,
    metadata_requests: Vec<Vec<u128>>,
    data_requests: Vec<(u128, u64, LoadHandle, u32)>,
    resolve_requests: Vec<LoadHandle>,
}

type SharedWorld = Rc<RefCell<World>>;

struct MemoryIo {
    world: SharedWorld,
}

fn describe(id: u128, source: &Source) -> ArtifactMetadata {
    ArtifactMetadata {
        id: ArtifactId(source.data.len() as u64),
        asset_id: AssetUuid(id),
        load_deps: source.deps.clone(),
        type_id: TEXT,
    }
}

impl<A: HandleAllocator + ?Sized> LoaderIO<A> for MemoryIo {
    fn get_asset_metadata_with_dependencies(&mut self, request: MetadataRequest) {
        let mut world = self.world.borrow_mut();
        let mut asked: Vec<u128> = request.requests.keys().copied().collect();
        asked.sort();
        world.metadata_requests.push(asked.clone());
        if world.metadata_fails {
            let response = MetadataResponse {
                result: Err("no connection".to_string()),
                requests: request.requests,
            };
            request.tx.send(response).unwrap();
            return;
        }
        let mut found = Vec::new();
        let mut seen = HashSet::new();
        while let Some(id) = asked.pop() {
            if !seen.insert(id) || world.hidden.contains(&id) {
                continue;
            }
            if let Some(source) = world.assets.get(&id) {
                for dep in &source.deps {
                    if let AssetRef::Uuid(uuid) = dep {
                        asked.push(uuid.0);
                    }
                }
                found.push(describe(id, source));
            }
        }
        let response = MetadataResponse { result: Ok(found), requests: request.requests };
        request.tx.send(response).unwrap();
    }

    fn get_asset_candidates(&mut self, requests: Vec<ResolveRequest>) {
        let mut world = self.world.borrow_mut();
        for request in requests {
            world.resolve_requests.push(request.handle);
            let result = if world.resolve_fails {
                Err("no connection".to_string())
            } else {
                let mut candidates = Vec::new();
                for (id, source) in &world.assets {
                    let metadata = AssetMetadata { id: AssetUuid(*id), type_id: Some(TEXT) };
                    candidates.push((source.path.clone(), vec![metadata]));
                }
                Ok(candidates)
            };
            let response = ResolveResponse { result, id: request.id, handle: request.handle };
            request.tx.send(response).unwrap();
        }
    }

    fn get_artifacts(&mut self, requests: Vec<DataRequest>) {
        let mut world = self.world.borrow_mut();
        for DataRequest { tx, request } in requests {
            world.data_requests.push((
                request.asset_id.0,
                request.artifact_id.0,
                request.handle,
                request.version,
            ));
            let result = if world.data_fails {
                Err("no connection".to_string())
            } else {
                Ok(world.assets[&request.asset_id.0].data.clone())
            };
            let response =
                DataResponse { result, handle: request.handle, version: request.version };
            tx.send(response).unwrap();
        }
    }

    fn tick(&mut self, loader: &mut LoaderState<A>) {
        let mut world = self.world.borrow_mut();
        world.ticks += 1;
        let changed = std::mem::take(&mut world.changed);
        loader.invalidate_assets(&changed);
    }
}

#[derive(Debug, Clone, PartialEq)]
enum Event {
    Update(LoadHandle, u32, Vec<u8>),
    Commit(LoadHandle, u32),
    Free(LoadHandle, u32),
}

/// What the storage holds of a load.
#[derive(Default)]
struct Held {
    size: Option<usize>,
    commit_version: Option<u32>,
    load_version: Option<u32>,
}

#[derive(Default)]
struct Storage {
    map: HashMap<LoadHandle, Held>,
    events: Vec<Event>,
    refuse: bool,
    /// Keep load operations back, in place of completing them.
    hold: bool,
    held: Vec<AssetLoadOp>,
    /// What the loader said of the last load: its own handle by its asset.
    looked_up: Option<LoadHandle>,
}

impl AssetStorage for Storage {
    fn update_asset(
        &mut self,
        loader_info: &dyn LoaderInfoProvider,
        asset_type: &AssetTypeId,
        data: Vec<u8>,
        handle: LoadHandle,
        load_op: AssetLoadOp,
        version: u32,
    ) -> Result<(), String> {
        assert_eq!(*asset_type, TEXT);
        assert_eq!(load_op.load_handle(), handle);
        let asset = loader_info.get_asset_id(handle).unwrap();
        self.looked_up = loader_info.get_load_handle(&AssetRef::Uuid(asset));
        let state = self.map.entry(handle).or_default();
        state.size = Some(data.len());
        state.load_version = Some(version);
        self.events.push(Event::Update(handle, version, data));
        if self.refuse {
            // The outcome is reported all the same, as every operation must.
            self.held.push(load_op);
            return Err("cannot read it".to_string());
        }
        if self.hold {
            self.held.push(load_op);
        } else {
            load_op.complete();
        }
        Ok(())
    }

    fn commit_asset_version(&mut self, asset_type: &AssetTypeId, handle: LoadHandle, version: u32) {
        assert_eq!(*asset_type, TEXT);
        let state = self.map.get_mut(&handle).unwrap();
        assert!(state.load_version.unwrap() == version);
        state.commit_version = Some(version);
        state.load_version = None;
        self.events.push(Event::Commit(handle, version));
    }

    fn free(&mut self, asset_type: &AssetTypeId, handle: LoadHandle, version: u32) {
        assert_eq!(*asset_type, TEXT);
        // Another version that is being loaded stays.
        let loading = self.map.get(&handle).and_then(|held| held.load_version);
        if loading.is_none() || loading == Some(version) {
            self.map.remove(&handle);
        }
        self.events.push(Event::Free(handle, version));
    }
}

/// Binds a path to the asset at that path.
struct ByPath;

impl IndirectionResolver for ByPath {
    fn resolve(
        &self,
        id: &IndirectIdentifier,
        candidates: Vec<(String, Vec<AssetMetadata>)>,
    ) -> Option<AssetUuid> {
        let wanted = match id {
            IndirectIdentifier::Path(path) => path,
            IndirectIdentifier::PathWithType(path, _) => path,
        };
        candidates
            .iter()
            .find(|(path, _)| path == wanted)
            .and_then(|(_, assets)| assets.first())
            .map(|asset| asset.id)
    }
}

fn uuid_of(text: &str) -> AssetUuid {
    AssetUuid(Uuid::parse_str(text).unwrap().as_u128())
}

fn put(world: &SharedWorld, id: u128, deps: &[u128], data: &[u8]) {
    let source = Source {
        deps: deps.iter().map(|dep| AssetRef::Uuid(AssetUuid(*dep))).collect(),
        data: data.to_vec(),
        path: format!("asset_{}.txt", id),
    };
    world.borrow_mut().assets.insert(id, source);
}

fn new_world() -> SharedWorld {
    Rc::new(RefCell::new(World::default()))
}

fn new_loader(world: &SharedWorld) -> Loader {
    let io: Box<dyn LoaderIO> = Box::new(MemoryIo { world: world.clone() });
    Loader::new(io)
}

fn pass(loader: &mut Loader, storage: &mut Storage) {
    loader.process(storage, &ByPath).unwrap();
}

fn wait_for_status(
    status: LoadStatus,
    handle: LoadHandle,
    loader: &mut Loader,
    storage: &mut Storage,
) {
    for _ in 0..100 {
        println!("state {:?} expecting {:?}", loader.get_load_status(handle), status);
        if status == loader.get_load_status(handle) {
            return;
        }
        pass(loader, storage);
    }
    panic!("the status stays {:?}", loader.get_load_status(handle));
}

#[test]
fn test_connect() {
    let world = new_world();
    // asset uuid of "tests/assets/asset.txt"
    let id = uuid_of("60352042-616f-460e-abd2-546195c060fe");
    put(&world, id.0, &[], b"text");
    let mut loader = new_loader(&world);
    let handle = loader.add_ref(id);
    let mut storage = Storage::default();
    wait_for_status(LoadStatus::Loaded, handle, &mut loader, &mut storage);
    loader.remove_ref(handle);
    wait_for_status(LoadStatus::NotRequested, handle, &mut loader, &mut storage);
}

fn asset_tree() -> Vec<(AssetUuid, &'static str)> {
    [
        ("a5ce4da0-675e-4460-be02-c8b145c2ee49", "asset_a.txt"),
        ("039dc5f8-ee1c-4949-a7df-72383f12c7a2", "asset_b.txt"),
        ("c071f3ff-c9ea-4bf5-b3b9-bf5fc29f9b59", "asset_c.txt"),
        ("55adb689-b91c-42a0-941b-de4a9f7f4f03", "asset_d.txt"),
    ]
    .iter()
    .map(|(id, file_name)| (uuid_of(id), *file_name))
    .collect()
}

#[test]
fn test_load_with_dependencies() {
    let world = new_world();
    let tree = asset_tree();
    put(&world, tree[0].0 .0, &[tree[1].0 .0, tree[3].0 .0], b"a");
    put(&world, tree[1].0 .0, &[tree[2].0 .0, tree[3].0 .0], b"b");
    put(&world, tree[2].0 .0, &[], b"c");
    put(&world, tree[3].0 .0, &[], b"d");

    let mut loader = new_loader(&world);
    let handle = loader.add_ref(
        // asset uuid of "tests/assets/asset_a.txt"
        uuid_of("a5ce4da0-675e-4460-be02-c8b145c2ee49"),
    );
    let mut storage = Storage::default();
    wait_for_status(LoadStatus::Loaded, handle, &mut loader, &mut storage);

    // Check that dependent assets are loaded
    let asset_handles = tree
        .iter()
        .map(|(asset_uuid, file_name)| {
            let asset_load_handle = loader
                .get_load(*asset_uuid)
                .unwrap_or_else(|| panic!("Expected `{}` to be loaded.", file_name));
            (asset_load_handle, *file_name)
        })
        .collect::<Vec<(LoadHandle, &'static str)>>();
    asset_handles.iter().for_each(|(asset_load_handle, file_name)| {
        assert_eq!(
            LoadStatus::Loaded,
            loader.get_load_status(*asset_load_handle),
            "Expected `{}` to be loaded.",
            file_name
        );
    });

    // Remove reference to top level asset.
    loader.remove_ref(handle);
    wait_for_status(LoadStatus::NotRequested, handle, &mut loader, &mut storage);

    // Remove ref when unloading top level asset.
    asset_handles.iter().for_each(|(asset_load_handle, file_name)| {
        println!("Waiting for {} to be `NotRequested`.", file_name);
        wait_for_status(
            LoadStatus::NotRequested,
            *asset_load_handle,
            &mut loader,
            &mut storage,
        );
    });
}

#[test]
fn new_loader_knows_nothing() {
    let loader = new_loader(&new_world());
    assert_eq!(loader.get_load(AssetUuid(1)), None);
    assert_eq!(loader.get_load_status(LoadHandle(1)), LoadStatus::NotRequested);
    assert_eq!(loader.get_load_status(LoadHandle(1).set_indirect()), LoadStatus::Unresolved);
    assert_eq!(loader.get_load_info(LoadHandle(1)), None);
    assert_eq!(loader.get_asset_type(LoadHandle(1)), None);
}

#[test]
fn references_are_counted() {
    let mut loader = new_loader(&new_world());
    let first = loader.add_ref(AssetUuid(10));
    let second = loader.add_ref(AssetUuid(20));
    assert_eq!(first, LoadHandle(1));
    assert_eq!(second, LoadHandle(2));
    assert_eq!(loader.add_ref(AssetUuid(10)), first);
    assert_eq!(loader.get_load(AssetUuid(10)), Some(first));
    assert_eq!(
        loader.get_load_info(first),
        Some(LoadInfo { asset_id: AssetUuid(10), refs: 2 })
    );
    assert_eq!(loader.get_load_status(first), LoadStatus::Loading);
    loader.remove_ref(first);
    assert_eq!(loader.get_load_info(first).unwrap().refs, 1);
    loader.remove_ref(first);
    assert_eq!(loader.get_load_info(first).unwrap().refs, 0);
    assert_eq!(loader.get_load_info(second).unwrap().refs, 1);
    assert_eq!(loader.get_load_status(first), LoadStatus::NotRequested);
    // The count wraps around, and only its low half is reported.
    loader.remove_ref(first);
    assert_eq!(loader.get_load_info(first).unwrap().refs, u32::MAX);
    loader.add_ref(AssetUuid(10));
    assert_eq!(loader.get_load_info(first).unwrap().refs, 0);
    // Nothing happens to a load that does not exist.
    loader.remove_ref(LoadHandle(77));
    assert_eq!(loader.get_load_info(LoadHandle(77)), None);
}

#[test]
fn storage_calls_come_in_order() {
    let world = new_world();
    put(&world, 10, &[], b"abc");
    let mut loader = new_loader(&world);
    let mut storage = Storage::default();
    let handle = loader.add_ref(AssetUuid(10));
    // The metadata is asked for, and arrives.
    pass(&mut loader, &mut storage);
    assert_eq!(world.borrow().metadata_requests, vec![vec![10]]);
    pass(&mut loader, &mut storage);
    // The dependencies are referenced, and found to be loaded; the data is asked for.
    pass(&mut loader, &mut storage);
    assert!(world.borrow().data_requests.is_empty());
    pass(&mut loader, &mut storage);
    assert_eq!(world.borrow().data_requests, vec![(10, 3, handle, 1)]);
    assert!(storage.events.is_empty());
    // The storage gets the data; in the next pass the version comes into use.
    pass(&mut loader, &mut storage);
    assert_eq!(storage.events, vec![Event::Update(handle, 1, b"abc".to_vec())]);
    assert_eq!(storage.looked_up, Some(handle));
    assert_eq!(loader.get_load_status(handle), LoadStatus::Loading);
    assert_eq!(loader.get_asset_type(handle), None);
    pass(&mut loader, &mut storage);
    assert_eq!(loader.get_load_status(handle), LoadStatus::Loaded);
    assert_eq!(loader.get_asset_type(handle), Some(TEXT));
    assert_eq!(storage.map[&handle].size, Some(3));
    assert_eq!(storage.map[&handle].commit_version, Some(1));
    // A loaded asset stays as it is.
    pass(&mut loader, &mut storage);
    pass(&mut loader, &mut storage);
    assert_eq!(loader.get_load_status(handle), LoadStatus::Loaded);
    assert_eq!(world.borrow().metadata_requests.len(), 1);
    assert_eq!(world.borrow().data_requests.len(), 1);
    // It is unloaded in three passes, and freed once.
    loader.remove_ref(handle);
    pass(&mut loader, &mut storage);
    assert_eq!(loader.get_load_status(handle), LoadStatus::Unloading);
    assert_eq!(loader.get_asset_type(handle), None);
    pass(&mut loader, &mut storage);
    assert_eq!(loader.get_load_status(handle), LoadStatus::Unloading);
    pass(&mut loader, &mut storage);
    assert_eq!(loader.get_load_status(handle), LoadStatus::NotRequested);
    pass(&mut loader, &mut storage);
    assert_eq!(
        storage.events,
        vec![
            Event::Update(handle, 1, b"abc".to_vec()),
            Event::Commit(handle, 1),
            Event::Free(handle, 1),
        ]
    );
    assert_eq!(world.borrow().ticks, 12);
    // A further reference loads it again, without asking for metadata again.
    assert_eq!(loader.add_ref(AssetUuid(10)), handle);
    wait_for_status(LoadStatus::Loaded, handle, &mut loader, &mut storage);
    assert_eq!(world.borrow().metadata_requests.len(), 1);
    assert_eq!(storage.events[4], Event::Commit(handle, 1));
}

#[test]
fn dependencies_are_loaded_first() {
    let world = new_world();
    put(&world, 1, &[2, 3], b"one");
    put(&world, 2, &[3], b"two");
    put(&world, 3, &[], b"three");
    let mut loader = new_loader(&world);
    let mut storage = Storage::default();
    let top = loader.add_ref(AssetUuid(1));
    wait_for_status(LoadStatus::Loaded, top, &mut loader, &mut storage);
    let middle = loader.get_load(AssetUuid(2)).unwrap();
    let bottom = loader.get_load(AssetUuid(3)).unwrap();
    let commits: Vec<Event> =
        storage.events.iter().filter(|e| matches!(e, Event::Commit(_, _))).cloned().collect();
    assert_eq!(
        commits,
        vec![Event::Commit(bottom, 1), Event::Commit(middle, 1), Event::Commit(top, 1)]
    );
    // The metadata of the dependencies came along.
    assert_eq!(world.borrow().metadata_requests, vec![vec![1]]);
    // Each is referenced by what depends on it.
    assert_eq!(loader.get_load_info(top).unwrap().refs, 1);
    assert_eq!(loader.get_load_info(middle).unwrap().refs, 1);
    assert_eq!(loader.get_load_info(bottom).unwrap().refs, 2);
    // Unloading releases exactly these references.
    loader.remove_ref(top);
    for handle in [top, middle, bottom] {
        wait_for_status(LoadStatus::NotRequested, handle, &mut loader, &mut storage);
        assert_eq!(loader.get_load_info(handle).unwrap().refs, 0);
    }
}

#[test]
fn failed_requests_are_made_again() {
    let world = new_world();
    put(&world, 10, &[], b"abc");
    let mut loader = new_loader(&world);
    let mut storage = Storage::default();
    let handle = loader.add_ref(AssetUuid(10));
    world.borrow_mut().metadata_fails = true;
    for _ in 0..3 {
        pass(&mut loader, &mut storage);
    }
    assert_eq!(world.borrow().metadata_requests, vec![vec![10]; 3]);
    // What failed in the last pass is told.
    assert_eq!(loader.failures().len(), 1);
    assert!(matches!(&loader.failures()[0], Failure::Metadata(text) if text == "no connection"));
    // An answer that leaves the request open has the same effect.
    world.borrow_mut().metadata_fails = false;
    world.borrow_mut().hidden.insert(10);
    for _ in 0..3 {
        pass(&mut loader, &mut storage);
    }
    assert_eq!(world.borrow().metadata_requests.len(), 6);
    assert!(loader.failures().is_empty());
    world.borrow_mut().hidden.clear();
    world.borrow_mut().data_fails = true;
    let mut told = 0;
    for _ in 0..20 {
        pass(&mut loader, &mut storage);
        for failure in loader.failures() {
            match failure {
                Failure::Data(failed, 1, text) => {
                    assert_eq!((*failed, text.as_str()), (handle, "no connection"));
                    told += 1;
                }
                other => panic!("unexpected: {:?}", other),
            }
        }
    }
    assert!(told > 1);
    let tries = world.borrow().data_requests.len();
    assert!(tries > 1);
    assert!(storage.events.is_empty());
    assert_eq!(loader.get_load_status(handle), LoadStatus::Loading);
    world.borrow_mut().data_fails = false;
    wait_for_status(LoadStatus::Loaded, handle, &mut loader, &mut storage);
}

#[test]
fn refused_data_is_asked_for_again() {
    let world = new_world();
    put(&world, 10, &[], b"abc");
    let mut loader = new_loader(&world);
    let mut storage = Storage { refuse: true, ..Storage::default() };
    let handle = loader.add_ref(AssetUuid(10));
    for _ in 0..7 {
        pass(&mut loader, &mut storage);
    }
    assert_eq!(world.borrow().data_requests, vec![(10, 3, handle, 1); 4]);
    assert_eq!(loader.failures().len(), 1);
    assert!(matches!(
        &loader.failures()[0],
        Failure::Update(refused, 1, text) if *refused == handle && text == "cannot read it"
    ));
    assert_eq!(storage.events.len(), 3);
    assert_eq!(loader.get_asset_type(handle), None);
    storage.refuse = false;
    wait_for_status(LoadStatus::Loaded, handle, &mut loader, &mut storage);
}

#[test]
fn failing_load_operations_are_errors() {
    let world = new_world();
    put(&world, 10, &[], b"abc");
    let mut loader = new_loader(&world);
    let mut storage = Storage { hold: true, ..Storage::default() };
    let handle = loader.add_ref(AssetUuid(10));
    for _ in 0..5 {
        pass(&mut loader, &mut storage);
    }
    storage.held.pop().unwrap().error("broken".to_string());
    match loader.process(&mut storage, &ByPath) {
        Err(LoaderError::LoadFailed(failed, version, message)) => {
            assert_eq!((failed, version, message.as_str()), (handle, 1, "broken"));
        }
        other => panic!("unexpected: {:?}", other),
    }
    assert_eq!(storage.events, vec![Event::Update(handle, 1, b"abc".to_vec())]);

    let mut loader = new_loader(&world);
    let mut storage = Storage { hold: true, ..Storage::default() };
    let handle = loader.add_ref(AssetUuid(10));
    for _ in 0..5 {
        pass(&mut loader, &mut storage);
    }
    drop(storage.held.pop().unwrap());
    match loader.process(&mut storage, &ByPath) {
        Err(LoaderError::OpDropped(dropped, version)) => {
            assert_eq!((dropped, version), (handle, 1));
        }
        other => panic!("unexpected: {:?}", other),
    }
}

#[test]
fn dependencies_need_uuids() {
    let world = new_world();
    put(&world, 10, &[], b"abc");
    world.borrow_mut().assets.get_mut(&10).unwrap().deps =
        vec![AssetRef::Path("other.txt".to_string())];
    let mut loader = new_loader(&world);
    let mut storage = Storage::default();
    let handle = loader.add_ref(AssetUuid(10));
    for _ in 0..3 {
        pass(&mut loader, &mut storage);
    }
    match loader.process(&mut storage, &ByPath) {
        Err(LoaderError::ExpectedUuid(asset, version)) => {
            assert_eq!((asset, version), (handle, 1));
        }
        other => panic!("unexpected: {:?}", other),
    }
}

#[test]
fn reloads_come_into_use_together() {
    let world = new_world();
    put(&world, 1, &[], b"one");
    put(&world, 2, &[], b"two");
    put(&world, 3, &[], b"three");
    let mut loader = new_loader(&world);
    let mut storage = Storage::default();
    let one = loader.add_ref(AssetUuid(1));
    let two = loader.add_ref(AssetUuid(2));
    let three = loader.add_ref(AssetUuid(3));
    for handle in [one, two, three] {
        wait_for_status(LoadStatus::Loaded, handle, &mut loader, &mut storage);
    }
    storage.events.clear();
    put(&world, 1, &[], b"one again");
    put(&world, 2, &[], b"two again");
    // An asset that is invalidated twice is reloaded once; one that has no load is passed over.
    loader.invalidate_assets(&[AssetUuid(1), AssetUuid(99), AssetUuid(1)]);
    loader.invalidate_assets(&[AssetUuid(2)]);
    storage.hold = true;
    for _ in 0..20 {
        pass(&mut loader, &mut storage);
    }
    assert_eq!(storage.held.len(), 2);
    let updates: HashSet<(LoadHandle, u32, Vec<u8>)> = storage
        .events
        .iter()
        .map(|event| match event {
            Event::Update(handle, version, data) => (*handle, *version, data.clone()),
            other => panic!("unexpected: {:?}", other),
        })
        .collect();
    assert_eq!(
        updates,
        HashSet::from([(one, 2, b"one again".to_vec()), (two, 2, b"two again".to_vec())])
    );
    storage.events.clear();
    // As long as one of them is not finished, none comes into use.
    storage.held.pop().unwrap().complete();
    for _ in 0..5 {
        pass(&mut loader, &mut storage);
    }
    assert!(storage.events.is_empty());
    assert_eq!(loader.get_asset_type(one), Some(TEXT));
    storage.held.pop().unwrap().complete();
    pass(&mut loader, &mut storage);
    assert!(storage.events.is_empty());
    pass(&mut loader, &mut storage);
    let commits: HashSet<LoadHandle> = storage
        .events
        .iter()
        .take(2)
        .map(|event| match event {
            Event::Commit(handle, 2) => *handle,
            other => panic!("unexpected: {:?}", other),
        })
        .collect();
    assert_eq!(commits, HashSet::from([one, two]));
    // The old versions are given up, and removed.
    for _ in 0..5 {
        pass(&mut loader, &mut storage);
    }
    let frees: HashSet<LoadHandle> = storage
        .events
        .iter()
        .filter_map(|event| match event {
            Event::Free(handle, 1) => Some(*handle),
            _ => None,
        })
        .collect();
    assert_eq!(frees, HashSet::from([one, two]));
    assert_eq!(storage.events.len(), 4);
    for handle in [one, two, three] {
        assert_eq!(loader.get_load_status(handle), LoadStatus::Loaded);
        assert_eq!(loader.get_asset_type(handle), Some(TEXT));
    }
}

#[test]
fn changes_wait_for_pending_reloads() {
    let world = new_world();
    put(&world, 1, &[], b"one");
    put(&world, 2, &[], b"two");
    let mut loader = new_loader(&world);
    let mut storage = Storage::default();
    let one = loader.add_ref(AssetUuid(1));
    let two = loader.add_ref(AssetUuid(2));
    for handle in [one, two] {
        wait_for_status(LoadStatus::Loaded, handle, &mut loader, &mut storage);
    }
    storage.events.clear();
    storage.hold = true;
    // The source of the assets may report changes too.
    world.borrow_mut().changed.push(AssetUuid(1));
    for _ in 0..10 {
        pass(&mut loader, &mut storage);
    }
    loader.invalidate_assets(&[AssetUuid(2)]);
    for _ in 0..10 {
        pass(&mut loader, &mut storage);
    }
    assert_eq!(storage.events, vec![Event::Update(one, 2, b"one".to_vec())]);
    storage.held.pop().unwrap().complete();
    for _ in 0..10 {
        pass(&mut loader, &mut storage);
    }
    assert_eq!(storage.held.len(), 1);
    storage.held.pop().unwrap().complete();
    for _ in 0..10 {
        pass(&mut loader, &mut storage);
    }
    assert!(storage.events.contains(&Event::Commit(two, 2)));
    assert!(storage.events.contains(&Event::Free(two, 1)));
    assert_eq!(loader.get_load_status(two), LoadStatus::Loaded);
}

#[test]
fn unreferenced_assets_are_not_reloaded() {
    let world = new_world();
    put(&world, 1, &[], b"one");
    let mut loader = new_loader(&world);
    let mut storage = Storage::default();
    let one = loader.add_ref(AssetUuid(1));
    wait_for_status(LoadStatus::Loaded, one, &mut loader, &mut storage);
    loader.remove_ref(one);
    wait_for_status(LoadStatus::NotRequested, one, &mut loader, &mut storage);
    storage.events.clear();
    loader.invalidate_assets(&[AssetUuid(1)]);
    for _ in 0..10 {
        pass(&mut loader, &mut storage);
    }
    assert!(storage.events.is_empty());
    assert_eq!(loader.get_load_status(one), LoadStatus::NotRequested);
}

#[test]
fn identifiers_are_resolved() {
    let world = new_world();
    put(&world, 1, &[], b"one");
    put(&world, 2, &[], b"two");
    let mut loader = new_loader(&world);
    let mut storage = Storage::default();
    let table = loader.indirection_table();
    let copy = table.clone();
    let id = IndirectIdentifier::Path("asset_1.txt".to_string());
    let handle = loader.add_ref_indirect(id.clone());
    assert!(handle.is_indirect());
    assert_eq!(loader.add_ref_indirect(id.clone()), handle);
    let typed = IndirectIdentifier::PathWithType("asset_1.txt".to_string(), TEXT);
    let other = loader.add_ref_indirect(typed);
    assert_ne!(other, handle);
    loader.remove_ref(other);
    assert_eq!(loader.get_load_status(handle), LoadStatus::Unresolved);
    assert_eq!(loader.get_load_info(handle), None);
    assert_eq!(table.resolve(handle), None);
    wait_for_status(LoadStatus::Loaded, handle, &mut loader, &mut storage);
    assert_eq!(world.borrow().resolve_requests, vec![handle]);
    let direct = loader.get_load(AssetUuid(1)).unwrap();
    assert_eq!(table.resolve(handle), Some(direct));
    assert_eq!(copy.resolve(handle), Some(direct));
    assert_eq!(loader.resolve_in(&table, handle), Some(direct));
    assert_eq!(loader.resolve_in(&table, other), None);
    assert_eq!(loader.get_load_status(other), LoadStatus::Unresolved);
    assert_eq!(loader.get_load_status(handle), loader.get_load_status(direct));
    assert_eq!(loader.get_asset_type(handle), Some(TEXT));
    // The asset is referenced as often as the identifier is held.
    assert_eq!(
        loader.get_load_info(handle),
        Some(LoadInfo { asset_id: AssetUuid(1), refs: 2 })
    );
    loader.add_ref_indirect(id);
    assert_eq!(loader.get_load_info(handle).unwrap().refs, 3);
    for _ in 0..3 {
        loader.remove_ref(handle);
    }
    assert_eq!(loader.get_load_info(direct).unwrap().refs, 0);
    wait_for_status(LoadStatus::NotRequested, handle, &mut loader, &mut storage);
    assert_eq!(loader.get_load(AssetUuid(2)), None);
}

fn is_shareable<A: Send + Sync + Clone>(_: &A) -> bool {
    true
}

#[test]
fn the_table_can_be_shared() {
    let world = new_world();
    put(&world, 1, &[], b"one");
    let mut loader = new_loader(&world);
    let mut storage = Storage::default();
    let table = loader.indirection_table();
    assert!(is_shareable(&table));
    let handle = loader.add_ref_indirect(IndirectIdentifier::Path("asset_1.txt".to_string()));
    wait_for_status(LoadStatus::Loaded, handle, &mut loader, &mut storage);
    let direct = loader.get_load(AssetUuid(1));
    let reader = table.clone();
    assert_eq!(reader.resolve(handle), direct);
    assert_eq!(reader.resolve(LoadHandle(1234).set_indirect()), None);
}

#[test]
fn identifiers_without_asset_stay_unresolved() {
    let world = new_world();
    put(&world, 1, &[], b"one");
    let mut loader = new_loader(&world);
    let mut storage = Storage::default();
    let handle =
        loader.add_ref_indirect(IndirectIdentifier::Path("nowhere.txt".to_string()));
    world.borrow_mut().resolve_fails = true;
    let mut told = 0;
    for _ in 0..4 {
        pass(&mut loader, &mut storage);
        for failure in loader.failures() {
            match failure {
                Failure::Resolve(failed, text) => {
                    assert_eq!((*failed, text.as_str()), (handle, "no connection"));
                    told += 1;
                }
                other => panic!("unexpected: {:?}", other),
            }
        }
    }
    assert!(told > 0);
    // A request that fails is made again.
    assert!(world.borrow().resolve_requests.len() > 1);
    world.borrow_mut().resolve_fails = false;
    for _ in 0..10 {
        pass(&mut loader, &mut storage);
    }
    assert_eq!(loader.get_load_status(handle), LoadStatus::Unresolved);
    assert_eq!(loader.get_load(AssetUuid(1)), None);
}

#[test]
fn loaders_may_share_an_allocator() {
    type Shared = Arc<AtomicHandleAllocator>;
    let allocator: Shared = Arc::new(AtomicHandleAllocator::default());
    let world = new_world();
    let io: Box<dyn LoaderIO<Shared>> = Box::new(MemoryIo { world: world.clone() });
    let mut first = Loader::new_with_handle_allocator(io, Box::new(allocator.clone()));
    let io: Box<dyn LoaderIO<Shared>> = Box::new(MemoryIo { world });
    let mut second = Loader::new_with_handle_allocator(io, Box::new(allocator.clone()));
    assert_eq!(first.add_ref(AssetUuid(1)), LoadHandle(1));
    assert_eq!(second.add_ref(AssetUuid(1)), LoadHandle(2));
    assert_eq!(first.add_ref(AssetUuid(2)), LoadHandle(3));
    assert_eq!(allocator.allocate(), LoadHandle(4));
    let indirect = second.add_ref_indirect(IndirectIdentifier::Path("a".to_string()));
    assert_eq!(indirect, LoadHandle(5).set_indirect());
}

/// Gives out handles that are marked as indirect.
struct Marked {
    next: RefCell<u64>,
}

impl HandleAllocator for Marked {
    fn allocate(&self) -> LoadHandle {
        let mut next = self.next.borrow_mut();
        *next += 1;
        LoadHandle(*next).set_indirect()
    }
}

#[test]
fn assets_have_the_handles_that_are_given_out() {
    type Any = dyn HandleAllocator;
    let io: Box<dyn LoaderIO<Any>> = Box::new(MemoryIo { world: new_world() });
    let allocator: Box<Any> = Box::new(Marked { next: RefCell::new(8) });
    let mut loader = Loader::new_with_handle_allocator(io, allocator);
    let one = LoadHandle(9).set_indirect();
    assert_eq!(loader.add_ref(AssetUuid(1)), one);
    assert_eq!(loader.get_load(AssetUuid(1)), Some(one));
    // Such a handle is looked up as that of an identifier.
    assert_eq!(loader.get_load_info(one), None);
    assert_eq!(loader.get_load_status(one), LoadStatus::Unresolved);
    loader.remove_ref(one);
    assert_eq!(loader.add_ref(AssetUuid(1)), one);
    let id = IndirectIdentifier::Path("a".to_string());
    assert_eq!(loader.add_ref_indirect(id), LoadHandle(10).set_indirect());
}

#[test]
fn identifiers_have_handles_of_their_own() {
    let mut loader = new_loader(&new_world());
    let mut handles = HashSet::new();
    for n in 0..5 {
        let path = format!("{}.txt", n);
        let untyped = loader.add_ref_indirect(IndirectIdentifier::Path(path.clone()));
        let typed = loader.add_ref_indirect(IndirectIdentifier::PathWithType(path.clone(), TEXT));
        assert_eq!(loader.add_ref_indirect(IndirectIdentifier::Path(path)), untyped);
        assert!(handles.insert(untyped));
        assert!(handles.insert(typed));
        assert!(handles.insert(loader.add_ref(AssetUuid(n))));
    }
    // A handle that was looked up was not given out anew.
    assert_eq!(loader.add_ref(AssetUuid(100)), LoadHandle(16));
}

#[test]
fn reloads_of_unreferenced_assets_hold_up_nothing() {
    let world = new_world();
    put(&world, 1, &[], b"one");
    put(&world, 2, &[], b"two");
    let mut loader = new_loader(&world);
    let mut storage = Storage::default();
    let one = loader.add_ref(AssetUuid(1));
    let two = loader.add_ref(AssetUuid(2));
    for handle in [one, two] {
        wait_for_status(LoadStatus::Loaded, handle, &mut loader, &mut storage);
    }
    loader.remove_ref(one);
    wait_for_status(LoadStatus::NotRequested, one, &mut loader, &mut storage);
    storage.events.clear();
    // A reload of the first asset is pending, though nothing refers to it.
    loader.invalidate_assets(&[AssetUuid(1)]);
    pass(&mut loader, &mut storage);
    loader.invalidate_assets(&[AssetUuid(2)]);
    for _ in 0..12 {
        pass(&mut loader, &mut storage);
    }
    assert_eq!(
        storage.events,
        vec![
            Event::Update(two, 2, b"two".to_vec()),
            Event::Commit(two, 2),
            Event::Free(two, 1),
        ]
    );
    assert_eq!(loader.get_load_status(one), LoadStatus::NotRequested);
    assert_eq!(loader.get_load_status(two), LoadStatus::Loaded);
}

#[test]
fn an_asset_that_is_given_up_while_it_reloads_holds_up_nothing() {
    let world = new_world();
    put(&world, 1, &[], b"one");
    put(&world, 2, &[], b"two");
    let mut loader = new_loader(&world);
    let mut storage = Storage::default();
    let one = loader.add_ref(AssetUuid(1));
    let two = loader.add_ref(AssetUuid(2));
    for handle in [one, two] {
        wait_for_status(LoadStatus::Loaded, handle, &mut loader, &mut storage);
    }
    storage.events.clear();
    world.borrow_mut().data_fails = true;
    loader.invalidate_assets(&[AssetUuid(1)]);
    pass(&mut loader, &mut storage);
    // The changed asset is asked for in the same pass, and the old version stays in use.
    assert_eq!(world.borrow().metadata_requests.last(), Some(&vec![1]));
    assert_eq!(loader.get_asset_type(one), Some(TEXT));
    for _ in 0..4 {
        pass(&mut loader, &mut storage);
    }
    loader.remove_ref(one);
    pass(&mut loader, &mut storage);
    world.borrow_mut().data_fails = false;
    loader.invalidate_assets(&[AssetUuid(2)]);
    for _ in 0..12 {
        pass(&mut loader, &mut storage);
    }
    assert!(storage.events.contains(&Event::Commit(two, 2)));
    assert!(storage.events.contains(&Event::Free(two, 1)));
}

#[test]
fn an_invalidated_asset_is_asked_for_in_the_next_pass() {
    let world = new_world();
    put(&world, 1, &[], b"one");
    let mut loader = new_loader(&world);
    let mut storage = Storage::default();
    let one = loader.add_ref(AssetUuid(1));
    wait_for_status(LoadStatus::Loaded, one, &mut loader, &mut storage);
    storage.events.clear();
    put(&world, 1, &[], b"uno!");
    loader.invalidate_assets(&[AssetUuid(1)]);
    pass(&mut loader, &mut storage);
    assert_eq!(world.borrow().metadata_requests, vec![vec![1], vec![1]]);
    assert_eq!(loader.get_load_status(one), LoadStatus::Loading);
    assert_eq!(loader.get_asset_type(one), Some(TEXT));
    assert!(storage.events.is_empty());
    wait_for_status(LoadStatus::Loaded, one, &mut loader, &mut storage);
    assert_eq!(world.borrow().data_requests.last(), Some(&(1, 4, one, 2)));
    assert_eq!(
        storage.events,
        vec![
            Event::Update(one, 2, b"uno!".to_vec()),
            Event::Commit(one, 2),
            Event::Free(one, 1),
        ]
    );
}

#[test]
fn a_reload_on_its_way_outlives_the_references() {
    let world = new_world();
    put(&world, 1, &[], b"one");
    let mut loader = new_loader(&world);
    let mut storage = Storage::default();
    let one = loader.add_ref(AssetUuid(1));
    wait_for_status(LoadStatus::Loaded, one, &mut loader, &mut storage);
    storage.events.clear();
    storage.hold = true;
    loader.invalidate_assets(&[AssetUuid(1)]);
    while storage.held.is_empty() {
        pass(&mut loader, &mut storage);
    }
    // The new version is being loaded when the last reference goes.
    loader.remove_ref(one);
    for _ in 0..5 {
        pass(&mut loader, &mut storage);
    }
    assert!(!storage.events.contains(&Event::Commit(one, 2)));
    storage.hold = false;
    storage.held.pop().unwrap().complete();
    assert_eq!(loader.add_ref(AssetUuid(1)), one);
    for _ in 0..5 {
        pass(&mut loader, &mut storage);
    }
    assert!(storage.events.contains(&Event::Commit(one, 2)));
    assert_eq!(loader.get_load_status(one), LoadStatus::Loaded);
    // Later changes are seen to.
    loader.invalidate_assets(&[AssetUuid(1)]);
    for _ in 0..12 {
        pass(&mut loader, &mut storage);
    }
    assert!(storage.events.contains(&Event::Commit(one, 3)));
    assert_eq!(loader.get_load_status(one), LoadStatus::Loaded);
}

#[test]
fn a_change_of_an_unreferenced_asset_is_not_forgotten() {
    let world = new_world();
    put(&world, 1, &[], b"one");
    put(&world, 2, &[], b"two");
    let mut loader = new_loader(&world);
    let mut storage = Storage::default();
    let one = loader.add_ref(AssetUuid(1));
    let two = loader.add_ref(AssetUuid(2));
    for handle in [one, two] {
        wait_for_status(LoadStatus::Loaded, handle, &mut loader, &mut storage);
    }
    loader.remove_ref(one);
    wait_for_status(LoadStatus::NotRequested, one, &mut loader, &mut storage);
    put(&world, 1, &[], b"uno!");
    loader.invalidate_assets(&[AssetUuid(1)]);
    for _ in 0..5 {
        pass(&mut loader, &mut storage);
    }
    assert_eq!(world.borrow().metadata_requests.len(), 1);
    // Once something refers to the asset again, its new form is loaded and comes into use.
    assert_eq!(loader.add_ref(AssetUuid(1)), one);
    for _ in 0..25 {
        pass(&mut loader, &mut storage);
    }
    assert!(storage.events.contains(&Event::Update(one, 2, b"uno!".to_vec())));
    assert!(storage.events.contains(&Event::Commit(one, 2)));
    assert_eq!(loader.get_load_status(one), LoadStatus::Loaded);
    // Other changes are not held up.
    loader.invalidate_assets(&[AssetUuid(2)]);
    for _ in 0..12 {
        pass(&mut loader, &mut storage);
    }
    assert!(storage.events.contains(&Event::Commit(two, 2)));
    assert_eq!(loader.get_load_status(two), LoadStatus::Loaded);
}

#[test]
fn an_unloaded_asset_releases_its_dependencies() {
    let world = new_world();
    put(&world, 1, &[2, 3, 2], b"one");
    put(&world, 2, &[], b"two");
    put(&world, 3, &[], b"three");
    let mut loader = new_loader(&world);
    let mut storage = Storage::default();
    let one = loader.add_ref(AssetUuid(1));
    wait_for_status(LoadStatus::Loaded, one, &mut loader, &mut storage);
    let two = loader.get_load(AssetUuid(2)).unwrap();
    let three = loader.get_load(AssetUuid(3)).unwrap();
    loader.add_ref(AssetUuid(3));
    let counts = |loader: &Loader| {
        (
            loader.get_load_info(two).unwrap().refs,
            loader.get_load_info(three).unwrap().refs,
        )
    };
    assert_eq!(counts(&loader), (2, 2));
    storage.events.clear();
    loader.remove_ref(one);
    pass(&mut loader, &mut storage);
    assert_eq!(loader.get_load_status(one), LoadStatus::Unloading);
    assert_eq!(counts(&loader), (2, 2));
    assert!(storage.events.is_empty());
    pass(&mut loader, &mut storage);
    assert_eq!(loader.get_load_status(one), LoadStatus::Unloading);
    assert_eq!(counts(&loader), (0, 1));
    assert_eq!(storage.events, vec![Event::Free(one, 1)]);
    pass(&mut loader, &mut storage);
    assert_eq!(loader.get_load_status(one), LoadStatus::NotRequested);
    assert_eq!(loader.get_load(AssetUuid(1)), Some(one));
    assert_eq!(loader.get_load_status(three), LoadStatus::Loaded);
}
