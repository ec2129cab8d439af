//! A pass of the loader, stage by stage.
//!
//! What a pass comes to depends on the messages that have come in by then, on the order in which
//! the maps are walked, on the resolver and on the handles that the allocator gives out. The
//! relations here say what each stage may come to, whatever these are.

use vstd::prelude::*;
use crate::error::ErrorView;
use crate::io::IoCall;
use crate::links::{Links, Taken};
use crate::model::LoaderView;
use crate::storage::{IndirectionResolver, StorageCall};

verus! {

/// The stages of a pass.
pub enum Stage {
    /// Looks for assets that have changed.
    AssetChanges,
    /// Takes in what the storage reports of its load operations.
    LoadOps,
    /// Takes the versions of the assets from state to state.
    LoadStates,
    /// Takes the indirect references from state to state.
    IndirectStates,
    /// Takes in metadata, and asks for what is needed.
    MetadataRequests,
    /// Takes in candidates for identifiers, and asks for what is needed.
    ResolveRequests,
    /// Takes in data, and asks for what is needed.
    DataRequests,
}

/// What a pass works on: the state of the loader, what it is tied to, the messages that it has
/// taken, and the calls made so far to the storage and to the source of the assets.
#[verifier::ext_equal]
pub struct PassState {
    pub loader: LoaderView,
    pub links: Links,
    pub taken: Taken,
    pub storage: Seq<StorageCall>,
    pub io: Seq<IoCall>,
}

impl PassState {
    /// What a stage may come to: what it leaves behind, and an error if there is one. Whatever
    /// comes, the parts of the state fit together, and no load is lost.
    pub open spec fn may_run<R: IndirectionResolver + ?Sized>(
        self,
        stage: Stage,
        resolver: &R,
        after: PassState,
        error: Option<ErrorView>,
    ) -> bool {
        let out = match error {
            None => Ok(after.loader),
            Some(e) => Err(e),
        };
        &&& after.links == self.links
        &&& after.loader.wf()
        &&& after.loader.extends(self.loader)
        &&& match stage {
            Stage::AssetChanges => {
                &&& self.loader.may_change_assets(self.storage, after.storage, out)
                &&& after.taken == self.taken
                &&& after.io == self.io
            },
            Stage::LoadOps => {
                &&& self.loader.may_receive_ops(
                    self.links,
                    self.taken,
                    after.taken,
                    self.storage,
                    after.storage,
                    out,
                )
                &&& after.io == self.io
            },
            Stage::LoadStates => {
                &&& self.loader.may_step_loads(self.storage, after.storage, out)
                &&& after.taken == self.taken
                &&& after.io == self.io
            },
            Stage::IndirectStates => {
                &&& out == Ok::<LoaderView, ErrorView>(self.loader.step_indirects())
                &&& after.taken == self.taken
                &&& after.storage == self.storage
                &&& after.io == self.io
            },
            Stage::MetadataRequests => {
                &&& self.loader.may_request_metadata(
                    self.links,
                    self.taken,
                    after.taken,
                    self.io,
                    after.io,
                    out,
                )
                &&& after.storage == self.storage
            },
            Stage::ResolveRequests => {
                &&& self.loader.may_request_candidates(
                    resolver,
                    self.links,
                    self.taken,
                    after.taken,
                    self.io,
                    after.io,
                    out,
                )
                &&& after.storage == self.storage
            },
            Stage::DataRequests => self.loader.may_request_data(
                self.links,
                self.taken,
                after.taken,
                self.storage,
                after.storage,
                self.io,
                after.io,
                out,
            ),
        }
    }

    /// What stages may come to, one after the other. An error ends them.
    pub open spec fn may_run_all<R: IndirectionResolver + ?Sized>(
        self,
        stages: Seq<Stage>,
        resolver: &R,
        after: PassState,
        error: Option<ErrorView>,
    ) -> bool
        decreases stages.len(),
    {
        if stages.len() == 0 {
            after == self && error is None
        } else {
            ||| error is Some && self.may_run_all(stages.drop_last(), resolver, after, error)
            ||| exists|mid: PassState|
                {
                    &&& self.may_run_all(stages.drop_last(), resolver, mid, None)
                    &&& #[trigger] mid.may_run(stages.last(), resolver, after, error)
                }
        }
    }

    /// After stages that came to `mid`, one more stage comes to what it may come to from there.
    pub proof fn lemma_run_one_more<R: IndirectionResolver + ?Sized>(
        self,
        stages: Seq<Stage>,
        stage: Stage,
        resolver: &R,
        mid: PassState,
        after: PassState,
        error: Option<ErrorView>,
    )
        requires
            self.may_run_all(stages, resolver, mid, None),
            mid.may_run(stage, resolver, after, error),
        ensures
            self.may_run_all(stages.push(stage), resolver, after, error),
    {
        assert(stages.push(stage).drop_last() =~= stages);
        assert(mid.may_run(stages.push(stage).last(), resolver, after, error));
    }

    /// An error among the first stages is an error of all.
    pub proof fn lemma_run_error<R: IndirectionResolver + ?Sized>(
        self,
        stages: Seq<Stage>,
        n: int,
        resolver: &R,
        after: PassState,
        error: Option<ErrorView>,
    )
        requires
            0 <= n <= stages.len(),
            error is Some,
            self.may_run_all(stages.take(n), resolver, after, error),
        ensures
            self.may_run_all(stages, resolver, after, error),
        decreases stages.len(),
    {
        if n == stages.len() {
            assert(stages.take(n) =~= stages);
        } else {
            assert(stages.drop_last().take(n) =~= stages.take(n));
            self.lemma_run_error(stages.drop_last(), n, resolver, after, error);
        }
    }
}

/// The stages of a pass, in their order.
pub open spec fn pass_stages() -> Seq<Stage> {
    seq![
        Stage::AssetChanges,
        Stage::LoadOps,
        Stage::LoadStates,
        Stage::IndirectStates,
        Stage::MetadataRequests,
        Stage::ResolveRequests,
        Stage::DataRequests,
    ]
}

} // verus!
