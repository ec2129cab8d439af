//! The messages between the loader, the storage and the source of the assets.

use vstd::prelude::*;
use crossbeam_channel::Sender;
use std::collections::HashMap;
use crate::channels::send_op;
use crate::channels::unbounded_sender;
use crate::ids::{ArtifactId, AssetUuid, IndirectIdentifier, LoadHandle};
use crate::metadata::{ArtifactMetadata, AssetMetadata};

verus! {

/// What became of a load operation.
#[derive(Debug)]
pub enum HandleOp {
    /// The storage could not load the version.
    Error(LoadHandle, u32, String),
    /// The storage has loaded the version.
    Complete(LoadHandle, u32),
    /// The operation was given up without an outcome.
    Drop(LoadHandle, u32),
}

/// A load operation of a storage, which reports its outcome once. An operation that is dropped
/// before it has reported anything reports that.
pub struct AssetLoadOp {
    sender: Option<Sender<HandleOp>>,
    handle: LoadHandle,
    version: u32,
}

impl AssetLoadOp {
    /// What the operation reports to is a channel that never blocks.
    #[verifier::type_invariant]
    spec fn reports_freely(self) -> bool {
        self.sender matches Some(tx) ==> unbounded_sender(tx)
    }

    /// The load that the operation is for.
    pub closed spec fn spec_handle(self) -> LoadHandle {
        self.handle
    }

    /// The version that the operation is for.
    pub closed spec fn spec_version(self) -> u32 {
        self.version
    }

    /// Where the operation reports to, if it has not reported yet.
    pub closed spec fn spec_sender(self) -> Option<Sender<HandleOp>> {
        self.sender
    }

    /// The operation has sent a report.
    pub closed spec fn reported(self, op: HandleOp) -> bool {
        self.sender matches Some(tx) ==> call_ensures(send_op, (&tx, op), ())
    }

    /// An operation that reports to `sender`.
    pub(crate) fn new(sender: Sender<HandleOp>, handle: LoadHandle, version: u32) -> (r: Self)
        requires
            unbounded_sender(sender),
        ensures
            r.spec_handle() == handle,
            r.spec_version() == version,
            r.spec_sender() == Some(sender),
    {
        AssetLoadOp { sender: Some(sender), handle, version }
    }

    /// Returns the load that the operation is for.
    pub fn load_handle(&self) -> (r: LoadHandle)
        ensures
            r == self.spec_handle(),
    {
        self.handle
    }

    /// Sends a report, if none was sent yet. It is the last one.
    fn report(&mut self, op: HandleOp)
        ensures
            old(self).reported(op),
            final(self).spec_sender() is None,
            final(self).spec_handle() == old(self).spec_handle(),
            final(self).spec_version() == old(self).spec_version(),
        opens_invariants none
        no_unwind
    {
        proof {
            use_type_invariant(&*self);
        }
        if let Some(sender) = &self.sender {
            send_op(sender, op);
        }
        self.sender = None;
    }

    /// Reports that the version is loaded.
    pub fn complete(self)
        ensures
            self.reported(HandleOp::Complete(self.spec_handle(), self.spec_version())),
    {
        let mut op = self;
        let report = HandleOp::Complete(op.handle, op.version);
        op.report(report);
    }

    /// Reports that the version could not be loaded.
    pub fn error(self, message: String)
        ensures
            self.reported(HandleOp::Error(self.spec_handle(), self.spec_version(), message)),
    {
        let mut op = self;
        let report = HandleOp::Error(op.handle, op.version, message);
        op.report(report);
    }
}

impl Drop for AssetLoadOp {
    fn drop(&mut self)
        opens_invariants none
        no_unwind
    {
        let report = HandleOp::Drop(self.handle, self.version);
        self.report(report);
    }
}

/// The answer to a [`MetadataRequest`]: the descriptions that were found, and what was asked for.
pub struct MetadataResponse {
    pub result: Result<Vec<ArtifactMetadata>, String>,
    pub requests: HashMap<u128, (LoadHandle, u32)>,
}

/// Asks for the metadata of assets and of what they depend on.
pub struct MetadataRequest {
    /// Where the answer goes.
    pub tx: Sender<MetadataResponse>,
    /// The load and the version that need it, by the number of the asset.
    pub requests: HashMap<u128, (LoadHandle, u32)>,
}

/// The answer to a [`DataRequest`].
pub struct DataResponse {
    pub result: Result<Vec<u8>, String>,
    pub handle: LoadHandle,
    pub version: u32,
}

/// Which data is asked for, and for which version of which load.
#[derive(Copy, Clone, PartialEq, Eq, Structural, Debug)]
pub struct ArtifactRequest {
    pub asset_id: AssetUuid,
    pub artifact_id: ArtifactId,
    pub handle: LoadHandle,
    pub version: u32,
}

/// Asks for the data of an asset.
pub struct DataRequest {
    /// Where the answer goes.
    pub tx: Sender<DataResponse>,
    pub request: ArtifactRequest,
}

/// What a list of requests asks for and where the answers go, in its order.
pub open spec fn artifact_requests(requests: Seq<DataRequest>) -> Seq<
    (ArtifactRequest, Sender<DataResponse>),
> {
    requests.map_values(|r: DataRequest| (r.request, r.tx))
}

/// The answer to a [`ResolveRequest`]: the assets found under each path.
pub struct ResolveResponse {
    pub result: Result<Vec<(String, Vec<AssetMetadata>)>, String>,
    pub id: IndirectIdentifier,
    pub handle: LoadHandle,
}

/// Asks for the assets that an identifier may stand for.
pub struct ResolveRequest {
    /// Where the answer goes.
    pub tx: Sender<ResolveResponse>,
    pub id: IndirectIdentifier,
    pub handle: LoadHandle,
}

/// Which identifiers a list of requests asks for, under which handles, and where the answers go, in
/// its order.
pub open spec fn identifier_requests(requests: Seq<ResolveRequest>) -> Seq<
    (((Seq<char>, Option<u128>), LoadHandle), Sender<ResolveResponse>),
> {
    requests.map_values(|r: ResolveRequest| ((r.id@, r.handle), r.tx))
}

} // verus!
