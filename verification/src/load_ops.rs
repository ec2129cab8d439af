//! Takes in what the storage reports of its load operations.

use vstd::prelude::*;
use crate::error::{ErrorView, LoaderError};
use crate::ids::LoadHandle;
use crate::load::{LoadState, VersionQuery};
use crate::load::commit_asset;
use crate::messages::HandleOp;
use crate::links::{Links, Taken};
use crate::model::{LoaderView, Stop};
use crate::model::{came_to, outcome};
use crate::state::LoaderState;
use crate::storage::{AssetStorage, HandleAllocator, StorageCall};

verus! {

/// What a [`HandleOp`] says.
pub enum OpMessage {
    Error(LoadHandle, u32, Seq<char>),
    Complete(LoadHandle, u32),
    Drop(LoadHandle, u32),
}

impl View for HandleOp {
    type V = OpMessage;

    open spec fn view(&self) -> OpMessage {
        match *self {
            HandleOp::Error(handle, version, message) => OpMessage::Error(
                handle,
                version,
                message@,
            ),
            HandleOp::Complete(handle, version) => OpMessage::Complete(handle, version),
            HandleOp::Drop(handle, version) => OpMessage::Drop(handle, version),
        }
    }
}

impl LoaderView {
    /// What the outcome of a load operation comes to, and which calls are made to the storage. A
    /// version that is loaded is committed, or waits for being committed. Any other outcome is an
    /// error.
    pub open spec fn receive_op(self, op: OpMessage) -> Result<
        (LoaderView, Seq<StorageCall>),
        Stop,
    > {
        match op {
            OpMessage::Error(handle, version, message) => Err(
                Stop::at_once(ErrorView::LoadFailed(handle, version, message)),
            ),
            OpMessage::Drop(handle, version) => Err(
                Stop::at_once(ErrorView::OpDropped(handle, version)),
            ),
            OpMessage::Complete(handle, version) => match self.find_version(handle, version) {
                Err(e) => Err(Stop::at_once(e)),
                Ok(i) => {
                    let load = self.loads[handle.0];
                    if load.versions[i].auto_commit {
                        match load.commit(handle, version) {
                            Err(e) => Err(Stop::at_once(e)),
                            Ok((after, call)) => Ok((self.with_load(handle.0, after), seq![call])),
                        }
                    } else {
                        Ok(
                            (
                                self.with_load(
                                    handle.0,
                                    load.with_state(i, LoadState::LoadedUncommitted),
                                ),
                                Seq::empty(),
                            ),
                        )
                    }
                },
            },
        }
    }

    /// What the outcomes of load operations come to, one after the other, and which calls are made
    /// to the storage.
    pub open spec fn receive_all_ops(self, ops: Seq<OpMessage>) -> Result<
        (LoaderView, Seq<StorageCall>),
        Stop,
    >
        decreases ops.len(),
    {
        if ops.len() == 0 {
            Ok((self, Seq::empty()))
        } else {
            match self.receive_all_ops(ops.drop_last()) {
                Err(e) => Err(e),
                Ok((s, calls)) => match s.receive_op(ops.last()) {
                    Err(stop) => Err(stop.after(calls)),
                    Ok((t, more)) => Ok((t, calls + more)),
                },
            }
        }
    }

    /// What taking in the outcomes of load operations may come to: the outcomes that came are taken
    /// in, one after the other, until there are no more or one is an error.
    pub open spec fn may_receive_ops(
        self,
        links: Links,
        taken: Taken,
        after_taken: Taken,
        log: Seq<StorageCall>,
        after_log: Seq<StorageCall>,
        out: Result<LoaderView, ErrorView>,
    ) -> bool {
        exists|ops: Seq<OpMessage>|
            {
                &&& came_to(#[trigger] self.receive_all_ops(ops), log, after_log, out)
                &&& after_taken == taken.with_ops(ops)
                &&& out is Ok ==> ops.len() == u64::MAX || links.may_deliver_op(None)
            }
    }
}

impl<A: HandleAllocator + ?Sized> LoaderState<A> {
    /// Takes in the outcome of a load operation.
    pub fn receive_load_op<S: AssetStorage + ?Sized>(
        &mut self,
        op: HandleOp,
        asset_storage: &mut S,
    ) -> (r: Result<(), LoaderError>)
        requires
            old(self).wf(),
        ensures
            final(self).wf(),
            final(self).kept(*old(self)),
            final(self)@.extends(old(self)@),
            came_to(
                old(self)@.receive_op(op@),
                old(asset_storage).calls(),
                final(asset_storage).calls(),
                outcome(r, final(self)@),
            ),
            r is Err ==> final(self)@ == old(self)@,
    {
        assert(asset_storage.calls() + Seq::<StorageCall>::empty() =~= asset_storage.calls());
        match op {
            HandleOp::Error(handle, version, message) => Err(
                LoaderError::LoadFailed(handle, version, message),
            ),
            HandleOp::Drop(handle, version) => Err(LoaderError::OpDropped(handle, version)),
            HandleOp::Complete(handle, version) => match self.take_load(handle.0) {
                Some(mut load) => {
                    let ghost before = load@;
                    let r = match load.find(VersionQuery::Number(version)) {
                        Some(i) => {
                            assert(load@.versions[i as int] == load.versions@[i as int]@);
                            if load.versions[i].auto_commit {
                                commit_asset(handle, &mut load, version, asset_storage)
                            } else {
                                load.set_state(i, LoadState::LoadedUncommitted);
                                Ok(())
                            }
                        },
                        None => Err(LoaderError::MissingVersion(handle, version)),
                    };
                    self.put_load(handle.0, load);
                    proof {
                        assert(self@ =~= old(self)@.with_load(handle.0, load@));
                        if load@ == before {
                            assert(self@ =~= old(self)@);
                        }
                        assert forall|i: int| 0 <= i < load@.versions.len() implies (
                        #[trigger] load@.versions[i]).wf() by {
                            assert(before.versions[i].wf());
                        }
                        if let Ok((s, calls)) = old(self)@.receive_op(op@) {
                            if let Ok((after, call)) = before.commit(handle, version) {
                                assert(old(asset_storage).calls().push(call) =~= old(
                                    asset_storage,
                                ).calls() + seq![call]);
                            }
                        }
                    }
                    r
                },
                None => {
                    assert(self@ =~= old(self)@);
                    Err(LoaderError::MissingLoad(handle))
                },
            },
        }
    }

    /// Takes in the outcomes of load operations that have come.
    pub fn process_load_ops<S: AssetStorage + ?Sized>(&mut self, asset_storage: &mut S) -> (r: Result<
        (),
        LoaderError,
    >)
        requires
            old(self).wf(),
        ensures
            final(self).wf(),
            final(self).links() == old(self).links(),
            final(self)@.extends(old(self)@),
            old(self)@.may_receive_ops(
                old(self).links(),
                old(self).taken(),
                final(self).taken(),
                old(asset_storage).calls(),
                final(asset_storage).calls(),
                outcome(r, final(self)@),
            ),
    {
        let ghost mut ops: Seq<OpMessage> = Seq::empty();
        assert(self.taken() =~= self.taken().with_ops(ops));
        assert(asset_storage.calls() + Seq::<StorageCall>::empty() =~= asset_storage.calls());
        // The budget only bounds the loop: so many messages never come.
        let mut budget: u64 = u64::MAX;
        while budget > 0
            invariant
                self.wf(),
                self.links() == old(self).links(),
                self.taken() == old(self).taken().with_ops(ops),
                ops.len() == u64::MAX - budget,
                self@.extends(old(self)@),
                old(self)@.receive_all_ops(ops) matches Ok((s, calls)) && self@ == s
                    && asset_storage.calls() == old(asset_storage).calls() + calls,
            ensures
                ops.len() == u64::MAX || old(self).links().may_deliver_op(None),
            decreases budget,
        {
            let op = match self.next_op() {
                Some(op) => op,
                None => break,
            };
            let ghost before = self@;
            let ghost calls = (old(self)@.receive_all_ops(ops)->Ok_0).1;
            let ghost more_ops = ops.push(op@);
            assert(self.taken() =~= old(self).taken().with_ops(more_ops));
            let received = self.receive_load_op(op, asset_storage);
            proof {
                assert(more_ops.drop_last() =~= ops);
                let more = match before.receive_op(more_ops.last()) {
                    Ok((s, more)) => more,
                    Err(stop) => stop.calls,
                };
                assert(asset_storage.calls() =~= old(asset_storage).calls() + (calls + more));
                ops = more_ops;
            }
            if let Err(error) = received {
                return Err(error);
            }
            budget = budget - 1;
        }
        Ok(())
    }
}

} // verus!
