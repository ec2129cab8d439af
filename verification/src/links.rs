//! What a loader is tied to: its allocator, its channels and its table.

use vstd::prelude::*;
use crossbeam_channel::{Receiver, Sender};
use dashmap::DashMap;
use std::sync::Arc;
use crate::channels::{hears, may_deliver};
use crate::data_requests::DataMessage;
use crate::ids::LoadHandle;
use crate::load_ops::OpMessage;
use crate::messages::{DataResponse, HandleOp, MetadataResponse, ResolveResponse};
use crate::metadata_requests::MetadataMessage;
use crate::resolve_requests::ResolveMessage;
use crate::storage::{HandleAllocator, IndirectionTable};

verus! {

/// What a loader is tied to for as long as it lives.
pub struct Links {
    /// The handles that its allocator may give out.
    pub allocator: Set<LoadHandle>,
    /// The channel for what the storage reports of its load operations.
    pub ops: (Sender<HandleOp>, Receiver<HandleOp>),
    /// The channel for answers about metadata.
    pub metadata: (Sender<MetadataResponse>, Receiver<MetadataResponse>),
    /// The channel for answers with data.
    pub data: (Sender<DataResponse>, Receiver<DataResponse>),
    /// The channel for answers about identifiers.
    pub resolve: (Sender<ResolveResponse>, Receiver<ResolveResponse>),
    /// The references to its table of resolved indirect handles.
    pub table: Set<Arc<DashMap<u64, u64>>>,
}

/// The handles that an allocator may give out.
pub open spec fn given_by<A: HandleAllocator + ?Sized>(allocator: &A) -> Set<LoadHandle> {
    Set::new(|handle: LoadHandle| allocator.may_give(handle))
}

impl Links {
    /// The allocator may give out a handle.
    pub open spec fn gives(self, handle: LoadHandle) -> bool {
        self.allocator.contains(handle)
    }

    /// What load operations report through `tx` comes to the loader.
    pub open spec fn hears_op(self, tx: Sender<HandleOp>) -> bool {
        hears(self.ops, tx)
    }

    /// Answers about metadata that are sent through `tx` come to the loader.
    pub open spec fn hears_metadata(self, tx: Sender<MetadataResponse>) -> bool {
        hears(self.metadata, tx)
    }

    /// Answers with data that are sent through `tx` come to the loader.
    pub open spec fn hears_data(self, tx: Sender<DataResponse>) -> bool {
        hears(self.data, tx)
    }

    /// Answers about identifiers that are sent through `tx` come to the loader.
    pub open spec fn hears_resolve(self, tx: Sender<ResolveResponse>) -> bool {
        hears(self.resolve, tx)
    }

    /// The outcome of a load operation, or none, is what may come to the loader.
    pub open spec fn may_deliver_op(self, op: Option<HandleOp>) -> bool {
        may_deliver(self.ops, op)
    }

    /// An answer about metadata, or none, is what may come to the loader.
    pub open spec fn may_deliver_metadata(self, response: Option<MetadataResponse>) -> bool {
        may_deliver(self.metadata, response)
    }

    /// An answer with data, or none, is what may come to the loader.
    pub open spec fn may_deliver_data(self, response: Option<DataResponse>) -> bool {
        may_deliver(self.data, response)
    }

    /// An answer about an identifier, or none, is what may come to the loader.
    pub open spec fn may_deliver_resolve(self, response: Option<ResolveResponse>) -> bool {
        may_deliver(self.resolve, response)
    }

    /// A table is read through another reference to the table of the loader.
    pub open spec fn shares(self, table: IndirectionTable) -> bool {
        self.table.contains(table.reference())
    }
}

/// What a loader has taken out of its channels so far, each in the order in which it came.
#[verifier::ext_equal]
pub struct Taken {
    pub ops: Seq<OpMessage>,
    pub metadata: Seq<MetadataMessage>,
    pub data: Seq<DataMessage>,
    pub resolve: Seq<ResolveMessage>,
}

impl Taken {
    /// Nothing was taken out yet.
    pub open spec fn nothing() -> Taken {
        Taken {
            ops: Seq::empty(),
            metadata: Seq::empty(),
            data: Seq::empty(),
            resolve: Seq::empty(),
        }
    }

    /// The same, and outcomes of load operations after them.
    pub open spec fn with_ops(self, ops: Seq<OpMessage>) -> Taken {
        Taken { ops: self.ops + ops, ..self }
    }

    /// The same, and answers about metadata after them.
    pub open spec fn with_metadata(self, messages: Seq<MetadataMessage>) -> Taken {
        Taken { metadata: self.metadata + messages, ..self }
    }

    /// The same, and answers with data after them.
    pub open spec fn with_data(self, messages: Seq<DataMessage>) -> Taken {
        Taken { data: self.data + messages, ..self }
    }

    /// The same, and answers about identifiers after them.
    pub open spec fn with_resolve(self, messages: Seq<ResolveMessage>) -> Taken {
        Taken { resolve: self.resolve + messages, ..self }
    }
}

} // verus!
