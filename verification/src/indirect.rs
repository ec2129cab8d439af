//! References to assets by identifiers that are bound while the program runs.

use vstd::prelude::*;
use crate::ids::{AssetUuid, IndirectIdentifier};

verus! {

/// The state of an indirect reference.
#[derive(Copy, Clone, PartialEq, Eq, Structural, Debug)]
pub enum IndirectHandleState {
    /// Nothing goes on.
    Idle,
    /// The candidates for the identifier are needed.
    WaitingForMetadata,
    /// The candidates for the identifier are being fetched.
    RequestingMetadata,
    /// The identifier is resolved.
    Resolved,
}

/// An indirect reference.
#[derive(Debug)]
pub struct IndirectLoad {
    pub id: IndirectIdentifier,
    pub state: IndirectHandleState,
    pub resolved_uuid: Option<AssetUuid>,
    pub refs: usize,
    pub pending_reresolve: bool,
}

/// What an [`IndirectLoad`] holds.
pub struct IndirectView {
    /// The identifier.
    pub id: (Seq<char>, Option<u128>),
    pub state: IndirectHandleState,
    /// The asset that the identifier stands for.
    pub resolved_uuid: Option<AssetUuid>,
    /// How often the reference is held.
    pub refs: usize,
    /// Whether the identifier is to be resolved anew.
    pub pending_reresolve: bool,
}

impl View for IndirectLoad {
    type V = IndirectView;

    open spec fn view(&self) -> IndirectView {
        IndirectView {
            id: self.id@,
            state: self.state,
            resolved_uuid: self.resolved_uuid,
            refs: self.refs,
            pending_reresolve: self.pending_reresolve,
        }
    }
}

impl IndirectView {
    /// An indirect reference that nobody holds yet.
    pub open spec fn fresh(id: (Seq<char>, Option<u128>)) -> IndirectView {
        IndirectView {
            id,
            state: IndirectHandleState::Idle,
            resolved_uuid: None,
            refs: 0,
            pending_reresolve: false,
        }
    }

    /// The reference after a pass: one that is held gets resolved, and one that is to be resolved
    /// anew starts over.
    pub open spec fn stepped(self) -> IndirectView {
        if self.state is Idle && self.refs > 0 {
            IndirectView { state: IndirectHandleState::WaitingForMetadata, ..self }
        } else if self.state is Resolved && self.pending_reresolve {
            IndirectView {
                state: IndirectHandleState::WaitingForMetadata,
                pending_reresolve: false,
                ..self
            }
        } else {
            self
        }
    }

    /// The reference after its candidates were asked for, if they were needed.
    pub open spec fn requested(self) -> IndirectView {
        if self.state is WaitingForMetadata {
            IndirectView { state: IndirectHandleState::RequestingMetadata, ..self }
        } else {
            self
        }
    }

    /// The reference, held more often. The count wraps around.
    pub open spec fn refs_added(self, n: usize) -> IndirectView {
        IndirectView { refs: self.refs.wrapping_add(n), ..self }
    }

    /// The reference, held less often. The count wraps around.
    pub open spec fn refs_removed(self, n: usize) -> IndirectView {
        IndirectView { refs: self.refs.wrapping_sub(n), ..self }
    }
}

impl IndirectLoad {
    /// An indirect reference that nobody holds yet.
    pub fn new(id: IndirectIdentifier) -> (r: Self)
        ensures
            r@ == IndirectView::fresh(id@),
    {
        IndirectLoad {
            id,
            state: IndirectHandleState::Idle,
            resolved_uuid: None,
            refs: 0,
            pending_reresolve: false,
        }
    }

    /// Takes the reference one pass further.
    pub fn step(&mut self)
        ensures
            final(self)@ == old(self)@.stepped(),
    {
        if self.state == IndirectHandleState::Idle && self.refs > 0 {
            self.state = IndirectHandleState::WaitingForMetadata;
        } else if self.state == IndirectHandleState::Resolved && self.pending_reresolve {
            self.pending_reresolve = false;
            self.state = IndirectHandleState::WaitingForMetadata;
        }
    }
}

} // verus!
