//! Asks for the metadata of assets, and takes in what comes back.

use vstd::prelude::*;
use std::collections::HashMap;
use crate::error::{ErrorView, Failure, FailureView, LoaderError};
use crate::ids::LoadHandle;
use crate::io::{IoCall, LoaderIO};
use crate::links::{Links, Taken};
use crate::load::{AssetLoad, LoadState, LoadView, VersionQuery, VersionView};
use crate::load::position;
use crate::messages::{MetadataRequest, MetadataResponse};
use crate::metadata::{ArtifactMetadata, MetadataView};
use crate::metadata::metadata_views;
use crate::model::LoaderView;
use crate::model::{outcome, part_of};
use crate::state::LoaderState;
use crate::storage::HandleAllocator;

verus! {

/// What a [`MetadataResponse`] says.
pub struct MetadataMessage {
    /// The descriptions that were found, or why there are none.
    pub found: Result<Seq<MetadataView>, Seq<char>>,
    /// The load and the version that asked, by the number of the asset.
    pub requests: Map<u128, (LoadHandle, u32)>,
}

impl View for MetadataResponse {
    type V = MetadataMessage;

    open spec fn view(&self) -> MetadataMessage {
        MetadataMessage {
            found: match self.result {
                Ok(list) => Ok(metadata_views(list@)),
                Err(text) => Err(text@),
            },
            requests: self.requests@,
        }
    }
}

/// Which version of a load a description is for: the one that asked for it, or else the first one
/// that has none.
pub open spec fn description_target(request: Option<(LoadHandle, u32)>) -> VersionQuery {
    match request {
        Some((_, version)) => VersionQuery::Number(version),
        None => VersionQuery::NoMetadata,
    }
}

impl VersionView {
    /// The version with its description. If it was being waited for, the load goes on.
    pub open spec fn described(self, m: MetadataView) -> VersionView {
        VersionView {
            metadata: Some(m),
            state: if self.state is RequestingMetadata {
                LoadState::RequestDependencies
            } else {
                self.state
            },
            ..self
        }
    }

    /// The version after its description was asked for, if it was needed.
    pub open spec fn metadata_requested(self) -> VersionView {
        if self.state is WaitingForMetadata {
            VersionView { state: LoadState::RequestingMetadata, ..self }
        } else {
            self
        }
    }
}

/// The number of the last version of a list that needs its description.
pub open spec fn last_waiting(versions: Seq<VersionView>) -> Option<u32>
    decreases versions.len(),
{
    if versions.len() == 0 {
        None
    } else if versions.last().state is WaitingForMetadata {
        Some(versions.last().version)
    } else {
        last_waiting(versions.drop_last())
    }
}

impl LoadView {
    /// The load with a description that has arrived. If no version is looked for that could take
    /// it, there is a new version.
    pub open spec fn describe(self, handle: LoadHandle, m: MetadataView, target: VersionQuery) -> Result<
        LoadView,
        ErrorView,
    > {
        match position(self.versions, target) {
            Some(i) => Ok(self.with_version(i, self.versions[i].described(m))),
            None => if self.version_counter == u32::MAX {
                Err(ErrorView::VersionsExhausted(handle))
            } else {
                Ok(self.with_new_version(true, Some(m)))
            },
        }
    }

    /// The load after the descriptions that it needs were asked for.
    pub open spec fn metadata_requested(self) -> LoadView {
        LoadView {
            versions: self.versions.map_values(|v: VersionView| v.metadata_requested()),
            ..self
        }
    }
}

impl LoaderView {
    /// The state with a description that has arrived, with or without having been asked for.
    pub open spec fn describe(
        self,
        m: MetadataView,
        request: Option<(LoadHandle, u32)>,
        fresh: Map<u128, u64>,
    ) -> Result<LoaderView, ErrorView> {
        let s = match request {
            Some(_) => self,
            None => self.get_or_insert(m.asset_id.0, fresh),
        };
        let key = match request {
            Some((handle, _)) => handle.0,
            None => s.by_uuid[m.asset_id.0],
        };
        if !s.loads.contains_key(key) {
            Err(ErrorView::MissingLoad(LoadHandle(key)))
        } else {
            match s.loads[key].describe(LoadHandle(key), m, description_target(request)) {
                Ok(load) => Ok(s.with_load(key, load)),
                Err(e) => Err(e),
            }
        }
    }

    /// The state with descriptions that have arrived, and the requests that they leave open.
    pub open spec fn describe_all(
        self,
        list: Seq<MetadataView>,
        requests: Map<u128, (LoadHandle, u32)>,
        fresh: Map<u128, u64>,
    ) -> Result<(LoaderView, Map<u128, (LoadHandle, u32)>), ErrorView>
        decreases list.len(),
    {
        if list.len() == 0 {
            Ok((self, requests))
        } else {
            match self.describe_all(list.drop_last(), requests, fresh) {
                Err(e) => Err(e),
                Ok((s, rest)) => {
                    let m = list.last();
                    match s.describe(m, rest.get(m.asset_id.0), fresh) {
                        Err(e) => Err(e),
                        Ok(t) => Ok((t, rest.remove(m.asset_id.0))),
                    }
                },
            }
        }
    }

    /// The state after a request was left open: the version needs its description as before.
    pub open spec fn requeue(self, request: (LoadHandle, u32)) -> Result<LoaderView, ErrorView> {
        let (handle, version) = request;
        match self.find_version(handle, version) {
            Err(e) => Err(e),
            Ok(i) => {
                let load = self.loads[handle.0];
                if load.versions[i].state is RequestingMetadata {
                    Ok(self.with_load(handle.0, load.with_state(i, LoadState::WaitingForMetadata)))
                } else {
                    Ok(self)
                }
            },
        }
    }

    /// The state after requests were left open, in the given order of the assets.
    pub open spec fn requeue_all(
        self,
        requests: Map<u128, (LoadHandle, u32)>,
        order: Seq<u128>,
    ) -> Result<LoaderView, ErrorView>
        decreases order.len(),
    {
        if order.len() == 0 {
            Ok(self)
        } else {
            match self.requeue_all(requests, order.drop_last()) {
                Err(e) => Err(e),
                Ok(s) => s.requeue(requests[order.last()]),
            }
        }
    }

    /// The descriptions of an answer, taken in, and the requests that it leaves open. That there
    /// are none is noted.
    pub open spec fn take_descriptions(self, message: MetadataMessage, fresh: Map<u128, u64>) -> Result<
        (LoaderView, Map<u128, (LoadHandle, u32)>),
        ErrorView,
    > {
        match message.found {
            Ok(list) => self.describe_all(list, message.requests, fresh),
            Err(text) => Ok((self.failed(FailureView::Metadata(text)), message.requests)),
        }
    }

    /// Whether an answer may lead to this outcome. The order in which open requests are seen to is
    /// left open.
    pub open spec fn may_receive_metadata(
        self,
        message: MetadataMessage,
        fresh: Map<u128, u64>,
        outcome: Result<LoaderView, ErrorView>,
    ) -> bool {
        match self.take_descriptions(message, fresh) {
            Err(e) => outcome == Err::<LoaderView, ErrorView>(e),
            Ok((s, rest)) => exists|order: Seq<u128>|
                {
                    &&& order.no_duplicates()
                    &&& order.to_set() == rest.dom()
                    &&& outcome == #[trigger] s.requeue_all(rest, order)
                },
        }
    }

    /// Whether answers, one after the other, may lead to this outcome.
    pub open spec fn may_receive_all_metadata(
        self,
        messages: Seq<MetadataMessage>,
        outcome: Result<LoaderView, ErrorView>,
    ) -> bool
        decreases messages.len(),
    {
        if messages.len() == 0 {
            outcome == Ok::<LoaderView, ErrorView>(self)
        } else {
            exists|mid: LoaderView, fresh: Map<u128, u64>|
                {
                    &&& self.may_receive_all_metadata(messages.drop_last(), Ok(mid))
                    &&& #[trigger] mid.may_receive_metadata(messages.last(), fresh, outcome)
                    &&& outcome matches Ok(s) ==> fresh == s.by_uuid && s.extends(mid)
                }
        }
    }

    /// The state after every description that is needed was asked for.
    pub open spec fn metadata_requested(self) -> LoaderView {
        LoaderView { loads: self.loads.map_values(|l: LoadView| l.metadata_requested()), ..self }
    }

    /// Whether the load of an asset has a version that needs its description.
    pub open spec fn wants_metadata(self, uuid: u128) -> bool {
        &&& self.by_uuid.contains_key(uuid)
        &&& self.loads.contains_key(self.by_uuid[uuid])
        &&& self.loads[self.by_uuid[uuid]].asset_id.0 == uuid
        &&& last_waiting(self.loads[self.by_uuid[uuid]].versions) is Some
    }

    /// The descriptions that are needed: for each asset its load, and the last version of it that
    /// needs one.
    pub open spec fn metadata_wanted(self) -> Map<u128, (LoadHandle, u32)> {
        Map::new(
            |uuid: u128| self.wants_metadata(uuid),
            |uuid: u128|
                (
                    LoadHandle(self.by_uuid[uuid]),
                    last_waiting(self.loads[self.by_uuid[uuid]].versions)->0,
                ),
        )
    }

    /// What taking in and asking for metadata may come to: the answers that came are taken in, one
    /// after the other, until there are no more or one is an error.
    pub open spec fn may_request_metadata(
        self,
        links: Links,
        taken: Taken,
        after_taken: Taken,
        log: Seq<IoCall>,
        after_log: Seq<IoCall>,
        out: Result<LoaderView, ErrorView>,
    ) -> bool {
        exists|messages: Seq<MetadataMessage>, received: Result<LoaderView, ErrorView>|
            {
                &&& #[trigger] self.may_receive_all_metadata(messages, received)
                &&& after_taken == taken.with_metadata(messages)
                &&& match received {
                    Ok(mid) => {
                        &&& out == Ok::<LoaderView, ErrorView>(mid.metadata_requested())
                        &&& links.asked_metadata(log, mid.metadata_wanted(), after_log)
                        &&& messages.len() == u64::MAX || links.may_deliver_metadata(None)
                    },
                    Err(e) => out == Err::<LoaderView, ErrorView>(e) && after_log == log,
                }
            }
    }

    /// A description that arrives removes no load and no handle.
    pub proof fn lemma_describe_extends(
        self,
        m: MetadataView,
        request: Option<(LoadHandle, u32)>,
        fresh: Map<u128, u64>,
    )
        ensures
            self.describe(m, request, fresh) matches Ok(s) ==> s.extends(self),
    {
    }

    /// When descriptions arrive, only the handles of the assets that were new matter.
    pub proof fn lemma_describe_all_fresh(
        self,
        list: Seq<MetadataView>,
        requests: Map<u128, (LoadHandle, u32)>,
        few: Map<u128, u64>,
        more: Map<u128, u64>,
    )
        requires
            part_of(few, more),
            self.describe_all(list, requests, few) matches Ok((s, rest)) && part_of(
                s.by_uuid,
                few,
            ),
        ensures
            self.describe_all(list, requests, more) == self.describe_all(list, requests, few),
        decreases list.len(),
    {
        if list.len() > 0 {
            let (s, rest) = self.describe_all(list.drop_last(), requests, few)->Ok_0;
            let m = list.last();
            let request = rest.get(m.asset_id.0);
            s.lemma_describe_extends(m, request, few);
            let t = s.describe(m, request, few)->Ok_0;
            assert(part_of(s.by_uuid, t.by_uuid));
            assert(request is None ==> t.by_uuid.contains_key(m.asset_id.0));
            assert(request is None ==> few.contains_key(m.asset_id.0));
            self.lemma_describe_all_fresh(list.drop_last(), requests, few, more);
        }
    }

    /// An error among the first descriptions is the error of all.
    proof fn lemma_describe_all_err(
        self,
        list: Seq<MetadataView>,
        n: int,
        requests: Map<u128, (LoadHandle, u32)>,
        fresh: Map<u128, u64>,
    )
        requires
            0 <= n <= list.len(),
            self.describe_all(list.take(n), requests, fresh) is Err,
        ensures
            self.describe_all(list, requests, fresh) == self.describe_all(
                list.take(n),
                requests,
                fresh,
            ),
        decreases list.len(),
    {
        if n == list.len() {
            assert(list.take(n) =~= list);
        } else {
            assert(list.drop_last().take(n) =~= list.take(n));
            self.lemma_describe_all_err(list.drop_last(), n, requests, fresh);
        }
    }

    /// An error among the first open requests is the error of all.
    proof fn lemma_requeue_all_err(
        self,
        requests: Map<u128, (LoadHandle, u32)>,
        order: Seq<u128>,
        n: int,
    )
        requires
            0 <= n <= order.len(),
            self.requeue_all(requests, order.take(n)) is Err,
        ensures
            self.requeue_all(requests, order) == self.requeue_all(requests, order.take(n)),
        decreases order.len(),
    {
        if n == order.len() {
            assert(order.take(n) =~= order);
        } else {
            assert(order.drop_last().take(n) =~= order.take(n));
            self.lemma_requeue_all_err(requests, order.drop_last(), n);
        }
    }
}

impl AssetLoad {
    /// Takes in a description that has arrived.
    fn describe(&mut self, handle: LoadHandle, metadata: ArtifactMetadata, target: VersionQuery) -> (r:
        Result<(), LoaderError>)
        requires
            old(self)@.wf(),
        ensures
            final(self)@.wf(),
            match old(self)@.describe(handle, metadata@, target) {
                Ok(load) => r is Ok && final(self)@ == load,
                Err(e) => final(self)@ == old(self)@ && (r matches Err(error) && error@ == e),
            },
    {
        match self.find(target) {
            Some(i) => {
                assert(self@.versions[i as int] == self.versions@[i as int]@);
                let ghost described = self@.versions[i as int].described(metadata@);
                if self.versions[i].state == LoadState::RequestingMetadata {
                    self.versions[i].state = LoadState::RequestDependencies;
                }
                self.versions[i].metadata = Some(metadata);
                assert(self@.versions =~= old(self)@.with_version(i as int, described).versions);
                Ok(())
            },
            None => {
                if self.version_counter == u32::MAX {
                    return Err(LoaderError::VersionsExhausted(handle));
                }
                self.push_version(true, Some(metadata));
                Ok(())
            },
        }
    }

    /// Notes that the descriptions that the load needs are asked for, and returns the number of the
    /// last version that needs one.
    fn request_metadata(&mut self) -> (r: Option<u32>)
        ensures
            final(self)@ == old(self)@.metadata_requested(),
            r == last_waiting(old(self)@.versions),
            old(self)@.wf() ==> final(self)@.wf(),
    {
        let ghost before = self@;
        let mut last: Option<u32> = None;
        let mut i: usize = 0;
        assert(before.versions.take(0) =~= Seq::empty());
        while i < self.versions.len()
            invariant
                i <= self.versions.len(),
                self@ == (LoadView { versions: self@.versions, ..before }),
                self@.versions.len() == before.versions.len(),
                forall|j: int|
                    0 <= j < i ==> #[trigger] self@.versions[j]
                        == before.versions[j].metadata_requested(),
                forall|j: int|
                    i <= j < before.versions.len() ==> #[trigger] self@.versions[j]
                        == before.versions[j],
                last == last_waiting(before.versions.take(i as int)),
            decreases self.versions.len() - i,
        {
            assert(self@.versions[i as int] == self.versions@[i as int]@);
            assert(before.versions.take(i + 1).drop_last() =~= before.versions.take(i as int));
            if self.versions[i].state == LoadState::WaitingForMetadata {
                last = Some(self.versions[i].version);
                self.set_state(i, LoadState::RequestingMetadata);
            }
            assert(self.versions.len() == self@.versions.len());
            i = i + 1;
        }
        assert(self@.versions =~= before.metadata_requested().versions);
        assert(before.versions.take(self.versions.len() as int) =~= before.versions);
        last
    }
}

/// Lists the keys of a map, each once.
fn list_requests(requests: &HashMap<u128, (LoadHandle, u32)>) -> (r: Vec<u128>)
    ensures
        r@.no_duplicates(),
        r@.to_set() == requests@.dom(),
{
    broadcast use vstd::std_specs::hash::group_hash_axioms;

    let ghost all = vstd::std_specs::iter::IteratorSpec::remaining(&requests.keys()).unref();
    let mut keys: Vec<u128> = Vec::new();
    for key in iter: requests.keys()
        invariant
            keys@.len() == iter.index(),
            iter.seq().unref() == all,
            forall|i: int| 0 <= i < keys@.len() ==> #[trigger] keys@[i] == all[i],
    {
        assert(*key == all[iter.index()]);
        keys.push(*key);
    }
    assert(keys@ =~= all);
    keys
}

impl<A: HandleAllocator + ?Sized> LoaderState<A> {
    /// Takes in a description that has arrived, with or without having been asked for.
    fn describe(&mut self, metadata: ArtifactMetadata, request: Option<(LoadHandle, u32)>) -> (r: Result<
        (),
        LoaderError,
    >)
        requires
            old(self).wf(),
        ensures
            final(self).wf(),
            final(self).kept(*old(self)),
            final(self)@.extends(old(self)@),
            match old(self)@.describe(metadata@, request, final(self)@.by_uuid) {
                Ok(s) => r is Ok && final(self)@ == s,
                Err(e) => r matches Err(error) && error@ == e,
            },
    {
        let (handle, target) = match request {
            Some((handle, version)) => (handle, VersionQuery::Number(version)),
            None => (self.get_or_insert(metadata.asset_id), VersionQuery::NoMetadata),
        };
        let ghost mid = self@;
        match self.take_load(handle.0) {
            Some(mut load) => {
                let r = load.describe(handle, metadata, target);
                self.put_load(handle.0, load);
                assert(self@ =~= mid.with_load(handle.0, load@));
                r
            },
            None => {
                assert(self@ =~= mid);
                Err(LoaderError::MissingLoad(handle))
            },
        }
    }

    /// Takes in descriptions that have arrived, and removes the requests that they answer.
    fn describe_all(
        &mut self,
        list: Vec<ArtifactMetadata>,
        requests: &mut HashMap<u128, (LoadHandle, u32)>,
    ) -> (r: Result<(), LoaderError>)
        requires
            old(self).wf(),
        ensures
            final(self).wf(),
            final(self).kept(*old(self)),
            final(self)@.extends(old(self)@),
            match old(self)@.describe_all(
                metadata_views(list@),
                old(requests)@,
                final(self)@.by_uuid,
            ) {
                Ok((s, rest)) => r is Ok && final(self)@ == s && final(requests)@ == rest,
                Err(e) => r matches Err(error) && error@ == e,
            },
    {
        broadcast use vstd::std_specs::hash::group_hash_axioms;

        let ghost views = metadata_views(list@);
        let ghost asked = requests@;
        let mut i: usize = 0;
        assert(views.take(0) =~= Seq::empty());
        while i < list.len()
            invariant
                i <= list.len(),
                views == metadata_views(list@),
                asked == old(requests)@,
                self.wf(),
                self.kept(*old(self)),
                self@.extends(old(self)@),
                old(self)@.describe_all(views.take(i as int), asked, self@.by_uuid) == Ok::<
                    (LoaderView, Map<u128, (LoadHandle, u32)>),
                    ErrorView,
                >((self@, requests@)),
            decreases list.len() - i,
        {
            let ghost before = self@;
            let ghost rest = requests@;
            assert(views.take(i + 1).drop_last() =~= views.take(i as int));
            assert(views.take(i + 1).last() == list@[i as int]@);
            let metadata = list[i].clone();
            let request = requests.remove(&metadata.asset_id.0);
            assert(request == rest.get(metadata@.asset_id.0));
            assert(requests@ =~= rest.remove(metadata@.asset_id.0));
            let described = self.describe(metadata, request);
            proof {
                old(self)@.lemma_describe_all_fresh(
                    views.take(i as int),
                    asked,
                    before.by_uuid,
                    self@.by_uuid,
                );
            }
            if let Err(error) = described {
                proof {
                    old(self)@.lemma_describe_all_err(views, i + 1, asked, self@.by_uuid);
                }
                return Err(error);
            }
            i = i + 1;
        }
        assert(views.take(list.len() as int) =~= views);
        Ok(())
    }

    /// Notes that a request for a description was left open.
    fn requeue(&mut self, request: (LoadHandle, u32)) -> (r: Result<(), LoaderError>)
        requires
            old(self).wf(),
        ensures
            final(self).wf(),
            final(self).kept(*old(self)),
            final(self)@.extends(old(self)@),
            final(self)@.by_uuid == old(self)@.by_uuid,
            match old(self)@.requeue(request) {
                Ok(s) => r is Ok && final(self)@ == s,
                Err(e) => r matches Err(error) && error@ == e,
            },
    {
        let (handle, version) = request;
        match self.take_load(handle.0) {
            Some(mut load) => {
                let found = load.find(VersionQuery::Number(version));
                if let Some(i) = found {
                    assert(load@.versions[i as int] == load.versions@[i as int]@);
                    if load.versions[i].state == LoadState::RequestingMetadata {
                        load.set_state(i, LoadState::WaitingForMetadata);
                    }
                }
                self.put_load(handle.0, load);
                assert(self@ =~= old(self)@.with_load(handle.0, load@));
                match found {
                    Some(_) => {
                        assert(self@ =~= old(self)@.requeue(request)->Ok_0);
                        Ok(())
                    },
                    None => Err(LoaderError::MissingVersion(handle, version)),
                }
            },
            None => {
                assert(self@ =~= old(self)@);
                Err(LoaderError::MissingLoad(handle))
            },
        }
    }

    /// Takes in an answer about metadata. A description goes to the version that asked for it; one
    /// that was not asked for goes to the first version of its asset that has none, or else to a
    /// new version. Requests that the answer leaves open are made again.
    pub fn receive_metadata_response(&mut self, response: MetadataResponse) -> (r: Result<
        (),
        LoaderError,
    >)
        requires
            old(self).wf(),
        ensures
            final(self).wf(),
            final(self).kept(*old(self)),
            final(self)@.extends(old(self)@),
            old(self)@.may_receive_metadata(
                response@,
                final(self)@.by_uuid,
                outcome(r, final(self)@),
            ),
    {
        broadcast use vstd::std_specs::hash::group_hash_axioms;

        let ghost message = response@;
        let MetadataResponse { result, requests } = response;
        let mut rest = requests;
        match result {
            Ok(list) => {
                let described = self.describe_all(list, &mut rest);
                if let Err(error) = described {
                    return Err(error);
                }
            },
            Err(text) => self.note_failure(Failure::Metadata(text)),
        }
        let ghost mid = self@;
        assert(old(self)@.take_descriptions(message, self@.by_uuid) == Ok::<
            (LoaderView, Map<u128, (LoadHandle, u32)>),
            ErrorView,
        >((mid, rest@)));
        let order = list_requests(&rest);
        let mut i: usize = 0;
        assert(order@.take(0) =~= Seq::empty());
        while i < order.len()
            invariant
                i <= order.len(),
                message == response@,
                order@.no_duplicates(),
                order@.to_set() == rest@.dom(),
                self.wf(),
                self.kept(*old(self)),
                self@.extends(old(self)@),
                self@.by_uuid == mid.by_uuid,
                old(self)@.take_descriptions(message, self@.by_uuid) == Ok::<
                    (LoaderView, Map<u128, (LoadHandle, u32)>),
                    ErrorView,
                >((mid, rest@)),
                mid.requeue_all(rest@, order@.take(i as int)) == Ok::<LoaderView, ErrorView>(self@),
            decreases order.len() - i,
        {
            let key: u128 = order[i];
            assert(order@.to_set().contains(order@[i as int]));
            assert(order@.take(i + 1).drop_last() =~= order@.take(i as int));
            if let Some(request) = rest.get(&key) {
                let requeued = self.requeue(*request);
                if let Err(error) = requeued {
                    proof {
                        mid.lemma_requeue_all_err(rest@, order@, i + 1);
                    }
                    return Err(error);
                }
            }
            i = i + 1;
        }
        assert(order@.take(order.len() as int) =~= order@);
        Ok(())
    }

    /// Notes that every description that is needed is asked for, and returns what is to be asked.
    pub fn request_metadata(&mut self) -> (r: HashMap<u128, (LoadHandle, u32)>)
        requires
            old(self).wf(),
        ensures
            final(self).wf(),
            final(self).kept(*old(self)),
            final(self)@ == old(self)@.metadata_requested(),
            r@ == old(self)@.metadata_wanted(),
    {
        broadcast use vstd::std_specs::hash::group_hash_axioms;

        let ghost before = self@;
        let keys = self.list_loads();
        let mut requests: HashMap<u128, (LoadHandle, u32)> = HashMap::new();
        let mut i: usize = 0;
        assert forall|j: int| 0 <= j < keys@.len() implies self@.loads[#[trigger] keys@[j]].wf() by {
            assert(keys@.to_set().contains(keys@[j]));
        }
        while i < keys.len()
            invariant
                i <= keys.len(),
                keys@.no_duplicates(),
                keys@.to_set() == before.loads.dom(),
                before.wf(),
                self.owned(),
                self.kept(*old(self)),
                self@ == (LoaderView { loads: self@.loads, ..before }),
                self@.loads.dom() == before.loads.dom(),
                forall|j: int|
                    0 <= j < i ==> self@.loads[#[trigger] keys@[j]]
                        == before.loads[keys@[j]].metadata_requested(),
                forall|j: int|
                    i <= j < keys@.len() ==> self@.loads[#[trigger] keys@[j]]
                        == before.loads[keys@[j]],
                forall|j: int|
                    0 <= j < keys@.len() ==> self@.loads[#[trigger] keys@[j]].wf(),
                forall|uuid: u128| #[trigger]
                    requests@.contains_key(uuid) <==> before.wants_metadata(uuid)
                        && keys@.take(i as int).contains(before.by_uuid[uuid]),
                forall|uuid: u128| #[trigger]
                    requests@.contains_key(uuid) ==> requests@[uuid]
                        == before.metadata_wanted()[uuid],
            decreases keys.len() - i,
        {
            let key: u64 = keys[i];
            assert(keys@.to_set().contains(keys@[i as int]));
            assert(before.loads.contains_key(key));
            assert(keys@.take(i + 1) =~= keys@.take(i as int).push(key));
            if let Some(mut load) = self.take_load(key) {
                let ghost asked = requests@;
                let uuid: u128 = load.asset_id.0;
                if let Some(version) = load.request_metadata() {
                    requests.insert(uuid, (LoadHandle(key), version));
                }
                self.put_load(key, load);
                proof {
                    assert(before.by_uuid[uuid] == key);
                    assert forall|other: u128| #[trigger]
                        requests@.contains_key(other) <==> before.wants_metadata(other)
                            && keys@.take(i + 1).contains(before.by_uuid[other]) by {
                        assert(asked.contains_key(other) <==> before.wants_metadata(other)
                            && keys@.take(i as int).contains(before.by_uuid[other]));
                        assert(keys@.take(i + 1).contains(before.by_uuid[other]) <==> (
                        keys@.take(i as int).contains(before.by_uuid[other])
                            || before.by_uuid[other] == key)) by {
                            assert(keys@.take(i + 1)[i as int] == key);
                            if keys@.take(i as int).contains(before.by_uuid[other]) {
                                let j = choose|j: int|
                                    0 <= j < i && keys@.take(i as int)[j] == before.by_uuid[other];
                                assert(keys@.take(i + 1)[j] == before.by_uuid[other]);
                            }
                        }
                    }
                }
            }
            i = i + 1;
        }
        proof {
            assert(keys@.take(keys.len() as int) =~= keys@);
            assert(self@.loads =~= before.metadata_requested().loads) by {
                assert forall|key: u64| before.loads.contains_key(key) implies self@.loads[key]
                    == before.loads[key].metadata_requested() by {
                    assert(keys@.to_set().contains(key));
                    let j = choose|j: int| 0 <= j < keys@.len() && keys@[j] == key;
                    assert(self@.loads[keys@[j]] == before.loads[key].metadata_requested());
                }
            }
            assert forall|key: u64| self@.loads.contains_key(key) implies self@.loads[key].wf() by {
                assert(keys@.to_set().contains(key));
                let j = choose|j: int| 0 <= j < keys@.len() && keys@[j] == key;
                assert(self@.loads[keys@[j]].wf());
            }
            assert(requests@ =~= before.metadata_wanted()) by {
                assert forall|uuid: u128| before.wants_metadata(uuid) implies keys@.contains(
                    before.by_uuid[uuid],
                ) by {
                    assert(keys@.to_set().contains(before.by_uuid[uuid]));
                }
            }
            assert(self@.wf());
        }
        requests
    }

    /// Takes in the answers about metadata that have come, and asks for the metadata that is
    /// needed.
    pub fn process_metadata_requests<I: LoaderIO<A> + ?Sized>(&mut self, io: &mut I) -> (r: Result<
        (),
        LoaderError,
    >)
        requires
            old(self).wf(),
        ensures
            final(self).wf(),
            final(self).links() == old(self).links(),
            final(self)@.extends(old(self)@),
            old(self)@.may_request_metadata(
                old(self).links(),
                old(self).taken(),
                final(self).taken(),
                old(io).calls(),
                final(io).calls(),
                outcome(r, final(self)@),
            ),
    {
        broadcast use vstd::std_specs::hash::group_hash_axioms;

        let ghost mut messages: Seq<MetadataMessage> = Seq::empty();
        assert(self.taken() =~= self.taken().with_metadata(messages));
        // The budget only bounds the loop: so many messages never come.
        let mut budget: u64 = u64::MAX;
        while budget > 0
            invariant
                self.wf(),
                self.links() == old(self).links(),
                self.taken() == old(self).taken().with_metadata(messages),
                messages.len() == u64::MAX - budget,
                self@.extends(old(self)@),
                io.calls() == old(io).calls(),
                old(self)@.may_receive_all_metadata(messages, Ok(self@)),
            ensures
                messages.len() == u64::MAX || old(self).links().may_deliver_metadata(None),
            decreases budget,
        {
            let response = match self.next_metadata() {
                Some(response) => response,
                None => break,
            };
            let ghost before = self@;
            let ghost more = messages.push(response@);
            assert(more.drop_last() =~= messages);
            assert(self.taken() =~= old(self).taken().with_metadata(more));
            let received = self.receive_metadata_response(response);
            assert(before.may_receive_metadata(
                more.last(),
                self@.by_uuid,
                outcome(received, self@),
            ));
            assert(old(self)@.may_receive_all_metadata(more, outcome(received, self@)));
            if let Err(error) = received {
                return Err(error);
            }
            proof {
                messages = more;
            }
            budget = budget - 1;
        }
        let ghost mid = self@;
        assert(old(self)@.may_receive_all_metadata(messages, Ok(mid)));
        let requests = self.request_metadata();
        assert(requests@.dom().len() == 0 <==> requests@ =~= Map::empty());
        if !requests.is_empty() {
            let tx = self.metadata_sender();
            io.get_asset_metadata_with_dependencies(MetadataRequest { tx, requests });
        }
        Ok(())
    }
}

} // verus!
