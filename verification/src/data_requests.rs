//! Asks for the data of assets, and hands to the storage what comes back.

use vstd::prelude::*;
use crate::error::{ErrorView, Failure, FailureView, LoaderError};
use crate::ids::{AssetTypeId, LoadHandle};
use crate::io::{IoCall, LoaderIO};
use crate::links::{Links, Taken};
use crate::load::{AssetLoad, LoadState, LoadView, VersionQuery, VersionView};
use crate::load::position;
use crate::maps::guard_value;
use crate::messages::{ArtifactRequest, DataRequest, DataResponse};
use crate::messages::artifact_requests;
use crate::model::{LoaderView, Stop};
use crate::model::{came_to, outcome};
use crate::state::LoaderState;
use crate::storage::{AssetStorage, HandleAllocator, LoaderInfoProvider, StorageCall};
use crate::storage::refusal;

verus! {

/// What a [`DataResponse`] says.
pub struct DataMessage {
    /// The data, or why there is none.
    pub data: Result<Seq<u8>, Seq<char>>,
    /// The load that asked.
    pub handle: LoadHandle,
    /// The version that asked.
    pub version: u32,
}

impl View for DataResponse {
    type V = DataMessage;

    open spec fn view(&self) -> DataMessage {
        DataMessage {
            data: match self.result {
                Ok(bytes) => Ok(bytes@),
                Err(text) => Err(text@),
            },
            handle: self.handle,
            version: self.version,
        }
    }
}

/// What an answer with data makes of a version.
#[derive(Copy, Clone, PartialEq, Eq, Structural, Debug)]
pub struct AssetLoadResult {
    /// The state of the version from now on.
    pub new_state: LoadState,
    /// The type under which the storage holds the version from now on, if that changes.
    pub asset_type: Option<AssetTypeId>,
}

impl AssetLoadResult {
    /// A result that only changes the state.
    pub fn from_state(new_state: LoadState) -> (r: Self)
        ensures
            r == (AssetLoadResult { new_state, asset_type: None }),
    {
        AssetLoadResult { new_state, asset_type: None }
    }
}

impl VersionView {
    /// The version after an answer with data.
    pub open spec fn with_result(self, result: AssetLoadResult) -> VersionView {
        VersionView {
            state: result.new_state,
            asset_type: match result.asset_type {
                Some(asset_type) => Some(asset_type),
                None => self.asset_type,
            },
            ..self
        }
    }
}

impl LoadView {
    /// Which data the load needs: that of the first version that waits for it.
    pub open spec fn data_wanted(self, handle: LoadHandle) -> Option<ArtifactRequest> {
        match position(self.versions, VersionQuery::InState(LoadState::WaitingForData)) {
            Some(i) => Some(
                ArtifactRequest {
                    asset_id: self.asset_id,
                    artifact_id: self.versions[i].metadata->0.id,
                    handle,
                    version: self.versions[i].version,
                },
            ),
            None => None,
        }
    }

    /// The load after the data that it needs was asked for.
    pub open spec fn data_requested(self) -> LoadView {
        match position(self.versions, VersionQuery::InState(LoadState::WaitingForData)) {
            Some(i) => self.with_state(i, LoadState::RequestingData),
            None => self,
        }
    }
}

impl LoaderView {
    /// The state after an answer with data took effect on a version.
    pub open spec fn apply_result(
        self,
        handle: LoadHandle,
        version: u32,
        result: AssetLoadResult,
    ) -> Result<LoaderView, ErrorView> {
        match self.find_version(handle, version) {
            Err(e) => Err(e),
            Ok(i) => {
                let load = self.loads[handle.0];
                Ok(
                    self.with_load(
                        handle.0,
                        load.with_version(i, load.versions[i].with_result(result)),
                    ),
                )
            },
        }
    }

    /// The version has what its new state needs.
    pub open spec fn result_fits(
        self,
        handle: LoadHandle,
        version: u32,
        result: AssetLoadResult,
    ) -> bool {
        self.find_version(handle, version) matches Ok(i) ==> self.loads[handle.0].versions[i].with_result(
            result,
        ).wf()
    }

    /// What an answer with data comes to, and which calls are made to the storage. `refusal` says
    /// why the storage refuses the data, if it does. If it does, the data is asked for again; if
    /// there is no data, so is the metadata. Either is noted.
    pub open spec fn receive_data(self, message: DataMessage, refusal: Option<Seq<char>>) -> Result<
        (LoaderView, Seq<StorageCall>),
        Stop,
    > {
        match self.find_version(message.handle, message.version) {
            Err(e) => Err(Stop::at_once(e)),
            Ok(i) => {
                let v = self.loads[message.handle.0].versions[i];
                match message.data {
                    Err(text) => Ok(
                        (
                            self.failed(
                                FailureView::Data(message.handle, message.version, text),
                            ).apply_result(
                                message.handle,
                                message.version,
                                AssetLoadResult {
                                    new_state: LoadState::WaitingForMetadata,
                                    asset_type: None,
                                },
                            )->Ok_0,
                            Seq::empty(),
                        ),
                    ),
                    Ok(data) => match v.metadata {
                        None => Err(
                            Stop::at_once(
                                ErrorView::MissingMetadata(message.handle, message.version),
                            ),
                        ),
                        Some(m) => Ok(
                            (
                                match refusal {
                                    None => self.apply_result(
                                        message.handle,
                                        message.version,
                                        AssetLoadResult {
                                            new_state: LoadState::LoadingAsset,
                                            asset_type: Some(m.type_id),
                                        },
                                    )->Ok_0,
                                    Some(text) => self.failed(
                                        FailureView::Update(message.handle, message.version, text),
                                    ).apply_result(
                                        message.handle,
                                        message.version,
                                        AssetLoadResult {
                                            new_state: LoadState::WaitingForData,
                                            asset_type: None,
                                        },
                                    )->Ok_0,
                                },
                                seq![
                                    StorageCall::Update {
                                        asset_type: m.type_id,
                                        data,
                                        handle: message.handle,
                                        version: message.version,
                                        refusal,
                                    },
                                ],
                            ),
                        ),
                    },
                }
            },
        }
    }

    /// What answers with data come to, one after the other, and which calls are made to the
    /// storage. Each goes with why the storage refuses the data, if it does.
    pub open spec fn receive_all_data(
        self,
        messages: Seq<(DataMessage, Option<Seq<char>>)>,
    ) -> Result<(LoaderView, Seq<StorageCall>), Stop>
        decreases messages.len(),
    {
        if messages.len() == 0 {
            Ok((self, Seq::empty()))
        } else {
            match self.receive_all_data(messages.drop_last()) {
                Err(e) => Err(e),
                Ok((s, calls)) => match s.receive_data(messages.last().0, messages.last().1) {
                    Err(stop) => Err(stop.after(calls)),
                    Ok((t, more)) => Ok((t, calls + more)),
                },
            }
        }
    }

    /// The state after the data that the loads need was asked for.
    pub open spec fn data_requested(self) -> LoaderView {
        LoaderView { loads: self.loads.map_values(|l: LoadView| l.data_requested()), ..self }
    }

    /// Which data loads need, in the given order.
    pub open spec fn data_wanted(self, keys: Seq<u64>) -> Seq<ArtifactRequest>
        decreases keys.len(),
    {
        if keys.len() == 0 {
            Seq::empty()
        } else {
            let wanted = self.data_wanted(keys.drop_last());
            match self.loads[keys.last()].data_wanted(LoadHandle(keys.last())) {
                Some(request) => wanted.push(request),
                None => wanted,
            }
        }
    }

    /// What asking for data may come to. The order of the requests is left open.
    pub open spec fn may_ask_data(
        self,
        links: Links,
        log: Seq<IoCall>,
        after_log: Seq<IoCall>,
        after: LoaderView,
    ) -> bool {
        &&& after == self.data_requested()
        &&& exists|keys: Seq<u64>|
            {
                &&& keys.no_duplicates()
                &&& keys.to_set() == self.loads.dom()
                &&& links.asked_artifacts(log, #[trigger] self.data_wanted(keys), after_log)
            }
    }

    /// What taking in and asking for data may come to: the answers that came are taken in, one
    /// after the other, until there are no more or one is an error, whichever data the storage
    /// takes.
    pub open spec fn may_request_data(
        self,
        links: Links,
        taken: Taken,
        after_taken: Taken,
        log: Seq<StorageCall>,
        after_log: Seq<StorageCall>,
        io_log: Seq<IoCall>,
        after_io_log: Seq<IoCall>,
        out: Result<LoaderView, ErrorView>,
    ) -> bool {
        exists|messages: Seq<(DataMessage, Option<Seq<char>>)>|
            {
                &&& after_taken == taken.with_data(data_messages(messages))
                &&& match #[trigger] self.receive_all_data(messages) {
                    Ok((mid, calls)) => {
                        &&& after_log == log + calls
                        &&& out matches Ok(after) && mid.may_ask_data(
                            links,
                            io_log,
                            after_io_log,
                            after,
                        )
                        &&& messages.len() == u64::MAX || links.may_deliver_data(None)
                    },
                    Err(stop) => {
                        &&& out == Err::<LoaderView, ErrorView>(stop.error)
                        &&& after_log == log + stop.calls
                        &&& after_io_log == io_log
                    },
                }
            }
    }
}

/// The answers of a list, each of which goes with why the storage refuses the data.
pub open spec fn data_messages(messages: Seq<(DataMessage, Option<Seq<char>>)>) -> Seq<DataMessage> {
    messages.map_values(|m: (DataMessage, Option<Seq<char>>)| m.0)
}

impl AssetLoad {
    /// Notes that the data that the load needs is asked for, and returns what is to be asked.
    fn request_data(&mut self, handle: LoadHandle) -> (r: Option<ArtifactRequest>)
        requires
            old(self)@.wf(),
        ensures
            final(self)@.wf(),
            final(self)@ == old(self)@.data_requested(),
            r == old(self)@.data_wanted(handle),
    {
        match self.find(VersionQuery::InState(LoadState::WaitingForData)) {
            Some(i) => {
                let ghost v = self@.versions[i as int];
                assert(v == self.versions@[i as int]@);
                assert(v.wf());
                let asset_id = self.asset_id;
                let version: u32 = self.versions[i].version;
                let request = match &self.versions[i].metadata {
                    Some(metadata) => Some(
                        ArtifactRequest { asset_id, artifact_id: metadata.id, handle, version },
                    ),
                    None => None,
                };
                self.set_state(i, LoadState::RequestingData);
                request
            },
            None => None,
        }
    }
}

impl<A: HandleAllocator + ?Sized> LoaderState<A> {
    /// Changes a version as an answer with data asks for.
    pub fn apply_load_result(
        &mut self,
        handle: LoadHandle,
        version: u32,
        result: AssetLoadResult,
    ) -> (r: Result<(), LoaderError>)
        requires
            old(self).wf(),
            old(self)@.result_fits(handle, version, result),
        ensures
            final(self).wf(),
            final(self).kept(*old(self)),
            final(self)@.extends(old(self)@),
            match old(self)@.apply_result(handle, version, result) {
                Ok(s) => r is Ok && final(self)@ == s,
                Err(e) => final(self)@ == old(self)@ && (r matches Err(error) && error@ == e),
            },
    {
        match self.take_load(handle.0) {
            Some(mut load) => {
                let found = load.find(VersionQuery::Number(version));
                if let Some(i) = found {
                    let ghost before = load@;
                    assert(load@.versions[i as int] == load.versions@[i as int]@);
                    load.versions[i].state = result.new_state;
                    if let Some(asset_type) = result.asset_type {
                        load.versions[i].asset_type = Some(asset_type);
                    }
                    assert(load@ =~= before.with_version(
                        i as int,
                        before.versions[i as int].with_result(result),
                    ));
                }
                self.put_load(handle.0, load);
                assert(self@ =~= old(self)@.with_load(handle.0, load@));
                match found {
                    Some(_) => Ok(()),
                    None => {
                        assert(self@ =~= old(self)@);
                        Err(LoaderError::MissingVersion(handle, version))
                    },
                }
            },
            None => {
                assert(self@ =~= old(self)@);
                Err(LoaderError::MissingLoad(handle))
            },
        }
    }

    /// Returns the type of a version of a load, if its metadata is known.
    fn find_type(&self, handle: LoadHandle, version: u32) -> (r: Result<
        Option<AssetTypeId>,
        LoaderError,
    >)
        ensures
            match self@.find_version(handle, version) {
                Ok(i) => r == Ok::<Option<AssetTypeId>, LoaderError>(
                    match self@.loads[handle.0].versions[i].metadata {
                        Some(m) => Some(m.type_id),
                        None => None,
                    },
                ),
                Err(e) => r matches Err(error) && error@ == e,
            },
    {
        match self.peek_load(handle.0) {
            Some(guard) => {
                let load = guard_value(&guard);
                match load.find(VersionQuery::Number(version)) {
                    Some(i) => {
                        assert(load@.versions[i as int] == load.versions@[i as int]@);
                        match &load.versions[i].metadata {
                            Some(metadata) => Ok(Some(metadata.type_id)),
                            None => Ok(None),
                        }
                    },
                    None => Err(LoaderError::MissingVersion(handle, version)),
                }
            },
            None => Err(LoaderError::MissingLoad(handle)),
        }
    }

    /// Takes in an answer with data: the storage gets the data, with a load operation that reports
    /// to this loader.
    pub fn receive_data_response<S: AssetStorage + ?Sized>(
        &mut self,
        response: DataResponse,
        asset_storage: &mut S,
    ) -> (r: Result<(), LoaderError>)
        requires
            old(self).wf(),
        ensures
            final(self).wf(),
            final(self).kept(*old(self)),
            final(self)@.extends(old(self)@),
            exists|refusal: Option<Seq<char>>|
                came_to(
                    #[trigger] old(self)@.receive_data(response@, refusal),
                    old(asset_storage).calls(),
                    final(asset_storage).calls(),
                    outcome(r, final(self)@),
                ),
            r is Err ==> final(self)@ == old(self)@,
    {
        let ghost message = response@;
        let ghost before_calls = asset_storage.calls();
        assert(before_calls + Seq::<StorageCall>::empty() =~= before_calls);
        let DataResponse { result, handle, version } = response;
        let found = match self.find_type(handle, version) {
            Ok(found) => found,
            Err(error) => {
                assert(self@.receive_data(message, None) is Err);
                return Err(error);
            },
        };
        match result {
            Ok(data) => {
                let artifact_type = match found {
                    Some(artifact_type) => artifact_type,
                    None => {
                        assert(self@.receive_data(message, None) is Err);
                        return Err(LoaderError::MissingMetadata(handle, version));
                    },
                };
                let load_op = self.new_load_op(handle, version);
                assert(self.hears_op(load_op.spec_sender()->0));
                let updated = asset_storage.update_asset(
                    &*self,
                    &artifact_type,
                    data,
                    handle,
                    load_op,
                    version,
                );
                let ghost step = self@.receive_data(message, refusal(updated));
                assert(step is Ok);
                assert(asset_storage.calls() =~= before_calls + (step->Ok_0).1);
                let load_result = match updated {
                    Ok(_) => AssetLoadResult {
                        new_state: LoadState::LoadingAsset,
                        asset_type: Some(artifact_type),
                    },
                    Err(text) => {
                        self.note_failure(Failure::Update(handle, version, text));
                        AssetLoadResult::from_state(LoadState::WaitingForData)
                    },
                };
                self.apply_load_result(handle, version, load_result)
            },
            Err(text) => {
                assert(self@.receive_data(message, None) is Ok);
                self.note_failure(Failure::Data(handle, version, text));
                self.apply_load_result(
                    handle,
                    version,
                    AssetLoadResult::from_state(LoadState::WaitingForMetadata),
                )
            },
        }
    }

    /// Notes that the data that the loads need is asked for, and returns the requests.
    pub fn request_data(&mut self) -> (r: Vec<DataRequest>)
        requires
            old(self).wf(),
        ensures
            final(self).wf(),
            final(self).kept(*old(self)),
            final(self)@ == old(self)@.data_requested(),
            exists|keys: Seq<u64>|
                keys.no_duplicates() && keys.to_set() == old(self)@.loads.dom() && old(
                    self,
                ).links().asks_for_artifacts(
                    artifact_requests(r@),
                    #[trigger] old(self)@.data_wanted(keys),
                ),
    {
        let ghost before = self@;
        let keys = self.list_loads();
        let mut requests: Vec<DataRequest> = Vec::new();
        let mut i: usize = 0;
        proof {
            assert(keys@.take(0) =~= Seq::empty());
            assert(artifact_requests(requests@) =~= Seq::empty());
            assert forall|j: int| 0 <= j < keys@.len() implies self@.loads[
                #[trigger] keys@[j]
            ].wf() by {
                assert(keys@.to_set().contains(keys@[j]));
            }
        }
        while i < keys.len()
            invariant
                i <= keys.len(),
                keys@.no_duplicates(),
                keys@.to_set() == before.loads.dom(),
                self.owned(),
                self.kept(*old(self)),
                self@ == (LoaderView { loads: self@.loads, ..before }),
                self@.loads.dom() == before.loads.dom(),
                forall|j: int|
                    0 <= j < i ==> self@.loads[#[trigger] keys@[j]]
                        == before.loads[keys@[j]].data_requested(),
                forall|j: int|
                    i <= j < keys@.len() ==> self@.loads[#[trigger] keys@[j]]
                        == before.loads[keys@[j]],
                forall|j: int|
                    0 <= j < keys@.len() ==> self@.loads[#[trigger] keys@[j]].wf(),
                old(self).links().asks_for_artifacts(
                    artifact_requests(requests@),
                    before.data_wanted(keys@.take(i as int)),
                ),
            decreases keys.len() - i,
        {
            let key: u64 = keys[i];
            assert(keys@.to_set().contains(keys@[i as int]));
            assert(keys@.take(i + 1).drop_last() =~= keys@.take(i as int));
            if let Some(mut load) = self.take_load(key) {
                if let Some(request) = load.request_data(LoadHandle(key)) {
                    let ghost asked = artifact_requests(requests@);
                    let tx = self.data_sender();
                    requests.push(DataRequest { tx, request });
                    assert(artifact_requests(requests@) =~= asked.push((request, tx)));
                }
                self.put_load(key, load);
            }
            i = i + 1;
        }
        proof {
            assert(keys@.take(keys.len() as int) =~= keys@);
            assert forall|key: u64| self@.loads.contains_key(key) implies self@.loads[key].wf()
                && self@.loads[key] == before.loads[key].data_requested() by {
                assert(keys@.to_set().contains(key));
                let j = choose|j: int| 0 <= j < keys@.len() && keys@[j] == key;
                assert(self@.loads[keys@[j]].wf());
            }
            assert(self@ =~= before.data_requested());
            assert(self@.wf());
        }
        requests
    }

    /// Takes in the answers with data that have come, and asks for the data that is needed.
    pub fn process_data_requests<S: AssetStorage + ?Sized, I: LoaderIO<A> + ?Sized>(
        &mut self,
        asset_storage: &mut S,
        io: &mut I,
    ) -> (r: Result<(), LoaderError>)
        requires
            old(self).wf(),
        ensures
            final(self).wf(),
            final(self).links() == old(self).links(),
            final(self)@.extends(old(self)@),
            old(self)@.may_request_data(
                old(self).links(),
                old(self).taken(),
                final(self).taken(),
                old(asset_storage).calls(),
                final(asset_storage).calls(),
                old(io).calls(),
                final(io).calls(),
                outcome(r, final(self)@),
            ),
    {
        let ghost mut messages: Seq<(DataMessage, Option<Seq<char>>)> = Seq::empty();
        assert(self.taken() =~= self.taken().with_data(data_messages(messages)));
        assert(asset_storage.calls() + Seq::<StorageCall>::empty() =~= asset_storage.calls());
        // The budget only bounds the loop: so many messages never come.
        let mut budget: u64 = u64::MAX;
        while budget > 0
            invariant
                self.wf(),
                self.links() == old(self).links(),
                self.taken() == old(self).taken().with_data(data_messages(messages)),
                messages.len() == u64::MAX - budget,
                self@.extends(old(self)@),
                io.calls() == old(io).calls(),
                old(self)@.receive_all_data(messages) matches Ok((s, calls)) && self@ == s
                    && asset_storage.calls() == old(asset_storage).calls() + calls,
            ensures
                messages.len() == u64::MAX || old(self).links().may_deliver_data(None),
            decreases budget,
        {
            let response = match self.next_data() {
                Some(response) => response,
                None => break,
            };
            let ghost before = self@;
            let ghost calls_before = asset_storage.calls();
            let ghost message = response@;
            let received = self.receive_data_response(response, asset_storage);
            proof {
                let refusal = choose|refusal: Option<Seq<char>>|
                    came_to(
                        #[trigger] before.receive_data(message, refusal),
                        calls_before,
                        asset_storage.calls(),
                        outcome(received, self@),
                    );
                let calls = (old(self)@.receive_all_data(messages)->Ok_0).1;
                let more_messages = messages.push((message, refusal));
                assert(more_messages.drop_last() =~= messages);
                assert(data_messages(more_messages) =~= data_messages(messages).push(message));
                assert(self.taken() =~= old(self).taken().with_data(data_messages(more_messages)));
                messages = more_messages;
                let more = match before.receive_data(message, refusal) {
                    Ok((s, more)) => more,
                    Err(stop) => stop.calls,
                };
                assert(asset_storage.calls() =~= old(asset_storage).calls() + (calls + more));
            }
            if let Err(error) = received {
                return Err(error);
            }
            budget = budget - 1;
        }
        let ghost mid = self@;
        let requests = self.request_data();
        assert(artifact_requests(requests@).len() == requests@.len());
        if requests.len() > 0 {
            io.get_artifacts(requests);
        }
        Ok(())
    }
}

} // verus!
