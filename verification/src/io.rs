//! Where assets come from.

use vstd::prelude::*;
use crossbeam_channel::Sender;
use crate::ids::LoadHandle;
use crate::links::Links;
use crate::messages::{
    ArtifactRequest, DataRequest, DataResponse, MetadataRequest, MetadataResponse, ResolveRequest,
    ResolveResponse,
};
use crate::messages::{artifact_requests, identifier_requests};
use crate::state::LoaderState;
use crate::storage::{AtomicHandleAllocator, HandleAllocator};

verus! {

/// A call that a loader made to a [`LoaderIO`]. Each request goes with where its answer goes.
pub enum IoCall {
    /// A pass begins.
    Tick,
    /// Metadata was asked for: for these loads and versions, by the numbers of the assets.
    Metadata(Map<u128, (LoadHandle, u32)>, Sender<MetadataResponse>),
    /// Candidates for identifiers were asked for.
    Candidates(Seq<(((Seq<char>, Option<u128>), LoadHandle), Sender<ResolveResponse>)>),
    /// Data was asked for.
    Artifacts(Seq<(ArtifactRequest, Sender<DataResponse>)>),
}

impl Links {
    /// Metadata was asked for, if some is needed and only then. The answer comes to the loader.
    pub open spec fn asked_metadata(
        self,
        log: Seq<IoCall>,
        wanted: Map<u128, (LoadHandle, u32)>,
        after_log: Seq<IoCall>,
    ) -> bool {
        if wanted == Map::<u128, (LoadHandle, u32)>::empty() {
            after_log == log
        } else {
            exists|tx: Sender<MetadataResponse>| #[trigger]
                self.hears_metadata(tx) && after_log == log.push(IoCall::Metadata(wanted, tx))
        }
    }

    /// Candidates were asked for, if some are needed and only then. The answers come to the loader.
    pub open spec fn asked_candidates(
        self,
        log: Seq<IoCall>,
        wanted: Seq<((Seq<char>, Option<u128>), LoadHandle)>,
        after_log: Seq<IoCall>,
    ) -> bool {
        if wanted.len() == 0 {
            after_log == log
        } else {
            exists|requests: Seq<(((Seq<char>, Option<u128>), LoadHandle), Sender<ResolveResponse>)>|
                after_log == log.push(IoCall::Candidates(requests))
                    && #[trigger] self.asks_for_candidates(requests, wanted)
        }
    }

    /// Requests are for the candidates that are needed, and the answers come to the loader.
    pub open spec fn asks_for_candidates(
        self,
        requests: Seq<(((Seq<char>, Option<u128>), LoadHandle), Sender<ResolveResponse>)>,
        wanted: Seq<((Seq<char>, Option<u128>), LoadHandle)>,
    ) -> bool {
        &&& requests.len() == wanted.len()
        &&& forall|i: int|
            0 <= i < requests.len() ==> (#[trigger] requests[i]).0 == wanted[i]
                && self.hears_resolve(requests[i].1)
    }

    /// Data was asked for, if some is needed and only then. The answers come to the loader.
    pub open spec fn asked_artifacts(
        self,
        log: Seq<IoCall>,
        wanted: Seq<ArtifactRequest>,
        after_log: Seq<IoCall>,
    ) -> bool {
        if wanted.len() == 0 {
            after_log == log
        } else {
            exists|requests: Seq<(ArtifactRequest, Sender<DataResponse>)>|
                after_log == log.push(IoCall::Artifacts(requests))
                    && #[trigger] self.asks_for_artifacts(requests, wanted)
        }
    }

    /// Requests are for the data that is needed, and the answers come to the loader.
    pub open spec fn asks_for_artifacts(
        self,
        requests: Seq<(ArtifactRequest, Sender<DataResponse>)>,
        wanted: Seq<ArtifactRequest>,
    ) -> bool {
        &&& requests.len() == wanted.len()
        &&& forall|i: int|
            0 <= i < requests.len() ==> (#[trigger] requests[i]).0 == wanted[i] && self.hears_data(
                requests[i].1,
            )
    }
}

/// Fetches metadata and data of assets. Each request carries the channel for its answer. The
/// contracts keep count of the calls that are made.
pub trait LoaderIO<A: HandleAllocator + ?Sized = AtomicHandleAllocator> {
    /// The calls made so far, in their order.
    open spec fn calls(&self) -> Seq<IoCall> {
        arbitrary()
    }

    /// Fetches the metadata of assets and of everything that they depend on.
    fn get_asset_metadata_with_dependencies(&mut self, request: MetadataRequest)
        ensures
            final(self).calls() == old(self).calls().push(IoCall::Metadata(request.requests@, request.tx)),
    ;

    /// Fetches the candidates for identifiers.
    fn get_asset_candidates(&mut self, requests: Vec<ResolveRequest>)
        ensures
            final(self).calls() == old(self).calls().push(
                IoCall::Candidates(identifier_requests(requests@)),
            ),
    ;

    /// Fetches the data of assets.
    fn get_artifacts(&mut self, requests: Vec<DataRequest>)
        ensures
            final(self).calls() == old(self).calls().push(
                IoCall::Artifacts(artifact_requests(requests@)),
            ),
    ;

    /// Does the work that is due. All that it does to the loader is to invalidate assets.
    fn tick(&mut self, loader: &mut LoaderState<A>)
        requires
            old(loader).wf(),
        ensures
            final(loader).wf(),
            exists|assets: Seq<u128>| final(loader)@ == old(loader)@.invalidate(assets),
            final(loader).kept(*old(loader)),
            final(self).calls() == old(self).calls().push(IoCall::Tick),
    ;
}

} // verus!
