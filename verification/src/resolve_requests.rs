//! Binds the identifiers of indirect references to assets.

use vstd::prelude::*;
use crate::error::{ErrorView, Failure, FailureView, LoaderError};
use crate::ids::{AssetUuid, LoadHandle};
use crate::indirect::{IndirectHandleState, IndirectView};
use crate::io::{IoCall, LoaderIO};
use crate::links::{Links, Taken};
use crate::messages::{ResolveRequest, ResolveResponse};
use crate::messages::identifier_requests;
use crate::metadata::AssetMetadata;
use crate::metadata::candidate_views;
use crate::model::LoaderView;
use crate::model::outcome;
use crate::state::LoaderState;
use crate::storage::{HandleAllocator, IndirectionResolver};

verus! {

/// What a [`ResolveResponse`] says.
pub struct ResolveMessage {
    /// The candidates, or why there are none.
    pub candidates: Result<Seq<(Seq<char>, Seq<AssetMetadata>)>, Seq<char>>,
    /// The identifier that was asked for.
    pub id: (Seq<char>, Option<u128>),
    /// The indirect reference that asked.
    pub handle: LoadHandle,
}

impl View for ResolveResponse {
    type V = ResolveMessage;

    open spec fn view(&self) -> ResolveMessage {
        ResolveMessage {
            candidates: match self.result {
                Ok(candidates) => Ok(candidate_views(candidates@)),
                Err(text) => Err(text@),
            },
            id: self.id@,
            handle: self.handle,
        }
    }
}

impl ResolveMessage {
    /// Whether a resolver may bind the identifier to an asset, or to none.
    pub open spec fn allows<R: IndirectionResolver + ?Sized>(
        self,
        resolver: &R,
        choice: Option<AssetUuid>,
    ) -> bool {
        self.candidates matches Ok(candidates) ==> resolver.may_resolve(
            self.id,
            candidates,
            choice,
        )
    }
}

impl LoaderView {
    /// The state after a pass over the indirect references.
    pub open spec fn step_indirects(self) -> LoaderView {
        LoaderView { indirects: self.indirects.map_values(|i: IndirectView| i.stepped()), ..self }
    }

    /// The state after the references that an indirect reference holds went from the asset that it
    /// was bound to, if any, to the one that it is bound to now, if any.
    pub open spec fn bind(
        self,
        key: u64,
        choice: Option<AssetUuid>,
        fresh: Map<u128, u64>,
    ) -> LoaderView {
        let indirect = self.indirects[key];
        let released = match indirect.resolved_uuid {
            Some(uuid) => self.remove_refs(LoadHandle(self.by_uuid[uuid.0]), indirect.refs),
            None => self,
        };
        let bound = match choice {
            Some(uuid) => {
                let s = released.add_refs(uuid.0, indirect.refs, fresh);
                LoaderView { table: s.table.insert(key, s.by_uuid[uuid.0]), ..s }
            },
            None => LoaderView { table: released.table.remove(key), ..released },
        };
        bound.with_indirect(
            key,
            IndirectView {
                resolved_uuid: choice,
                state: IndirectHandleState::Resolved,
                ..bound.indirects[key]
            },
        )
    }

    /// What an answer about an identifier comes to, given the asset to which the resolver binds the
    /// identifier. If there are no candidates, this is noted, and they are asked for again.
    pub open spec fn receive_candidates(
        self,
        message: ResolveMessage,
        choice: Option<AssetUuid>,
        fresh: Map<u128, u64>,
    ) -> Result<LoaderView, ErrorView> {
        let key = message.handle.0;
        if !self.indirects.contains_key(key) {
            Err(ErrorView::MissingIndirect(message.handle))
        } else {
            match message.candidates {
                Ok(_) => Ok(self.bind(key, choice, fresh)),
                Err(text) => Ok(
                    self.failed(FailureView::Resolve(message.handle, text)).with_indirect(
                        key,
                        IndirectView { state: IndirectHandleState::Idle, ..self.indirects[key] },
                    ),
                ),
            }
        }
    }

    /// Whether answers, each with the asset to which the resolver binds its identifier, may lead to
    /// this outcome, one after the other.
    pub open spec fn may_receive_all_candidates<R: IndirectionResolver + ?Sized>(
        self,
        resolver: &R,
        messages: Seq<(ResolveMessage, Option<AssetUuid>)>,
        outcome: Result<LoaderView, ErrorView>,
    ) -> bool
        decreases messages.len(),
    {
        if messages.len() == 0 {
            outcome == Ok::<LoaderView, ErrorView>(self)
        } else {
            exists|mid: LoaderView, fresh: Map<u128, u64>|
                {
                    &&& self.may_receive_all_candidates(resolver, messages.drop_last(), Ok(mid))
                    &&& outcome == #[trigger] mid.receive_candidates(
                        messages.last().0,
                        messages.last().1,
                        fresh,
                    )
                    &&& outcome matches Ok(s) ==> {
                        &&& messages.last().0.allows(resolver, messages.last().1)
                        &&& fresh == s.by_uuid
                        &&& s.extends(mid)
                    }
                }
        }
    }

    /// The state after the candidates that are needed were asked for.
    pub open spec fn candidates_requested(self) -> LoaderView {
        LoaderView { indirects: self.indirects.map_values(|i: IndirectView| i.requested()), ..self }
    }

    /// The identifiers for which candidates are needed, and their handles, in the given order.
    pub open spec fn candidates_wanted(self, keys: Seq<u64>) -> Seq<
        ((Seq<char>, Option<u128>), LoadHandle),
    >
        decreases keys.len(),
    {
        if keys.len() == 0 {
            Seq::empty()
        } else {
            let wanted = self.candidates_wanted(keys.drop_last());
            if self.indirects[keys.last()].state is WaitingForMetadata {
                wanted.push((self.indirects[keys.last()].id, LoadHandle(keys.last())))
            } else {
                wanted
            }
        }
    }

    /// What asking for candidates may come to. The order of the requests is left open.
    pub open spec fn may_ask_candidates(
        self,
        links: Links,
        log: Seq<IoCall>,
        after_log: Seq<IoCall>,
        after: LoaderView,
    ) -> bool {
        &&& after == self.candidates_requested()
        &&& exists|keys: Seq<u64>|
            {
                &&& keys.no_duplicates()
                &&& keys.to_set() == self.indirects.dom()
                &&& links.asked_candidates(log, #[trigger] self.candidates_wanted(keys), after_log)
            }
    }

    /// What taking in and asking for candidates may come to: the answers that came are taken in,
    /// one after the other, until there are no more or one is an error.
    pub open spec fn may_request_candidates<R: IndirectionResolver + ?Sized>(
        self,
        resolver: &R,
        links: Links,
        taken: Taken,
        after_taken: Taken,
        log: Seq<IoCall>,
        after_log: Seq<IoCall>,
        out: Result<LoaderView, ErrorView>,
    ) -> bool {
        exists|
            messages: Seq<(ResolveMessage, Option<AssetUuid>)>,
            received: Result<LoaderView, ErrorView>,
        |
            {
                &&& #[trigger] self.may_receive_all_candidates(resolver, messages, received)
                &&& after_taken == taken.with_resolve(resolve_messages(messages))
                &&& match received {
                    Ok(mid) => {
                        &&& out matches Ok(after) && mid.may_ask_candidates(
                            links,
                            log,
                            after_log,
                            after,
                        )
                        &&& messages.len() == u64::MAX || links.may_deliver_resolve(None)
                    },
                    Err(e) => out == Err::<LoaderView, ErrorView>(e) && after_log == log,
                }
            }
    }
}

/// The answers of a list, each of which goes with the asset to which its identifier is bound.
pub open spec fn resolve_messages(messages: Seq<(ResolveMessage, Option<AssetUuid>)>) -> Seq<
    ResolveMessage,
> {
    messages.map_values(|m: (ResolveMessage, Option<AssetUuid>)| m.0)
}

impl<A: HandleAllocator + ?Sized> LoaderState<A> {
    /// Takes the indirect references one pass further.
    pub fn process_indirect_states(&mut self)
        requires
            old(self).wf(),
        ensures
            final(self).wf(),
            final(self).kept(*old(self)),
            final(self)@ == old(self)@.step_indirects(),
    {
        let ghost before = self@;
        let keys = self.list_indirects();
        let mut i: usize = 0;
        while i < keys.len()
            invariant
                i <= keys.len(),
                keys@.no_duplicates(),
                keys@.to_set() == before.indirects.dom(),
                self.owned(),
                self.kept(*old(self)),
                self@ == (LoaderView { indirects: self@.indirects, ..before }),
                self@.indirects.dom() == before.indirects.dom(),
                forall|j: int|
                    0 <= j < i ==> self@.indirects[#[trigger] keys@[j]]
                        == before.indirects[keys@[j]].stepped(),
                forall|j: int|
                    i <= j < keys@.len() ==> self@.indirects[#[trigger] keys@[j]]
                        == before.indirects[keys@[j]],
            decreases keys.len() - i,
        {
            let key: u64 = keys[i];
            assert(keys@.to_set().contains(keys@[i as int]));
            if let Some(mut indirect) = self.take_indirect(key) {
                indirect.step();
                self.put_indirect(key, indirect);
            }
            i = i + 1;
        }
        proof {
            assert forall|key: u64| self@.indirects.contains_key(key) implies self@.indirects[key]
                == before.indirects[key].stepped() by {
                assert(keys@.to_set().contains(key));
                let j = choose|j: int| 0 <= j < keys@.len() && keys@[j] == key;
                assert(self@.indirects[keys@[j]] == before.indirects[keys@[j]].stepped());
            }
            assert(self@ =~= before.step_indirects());
            assert(self@.wf());
        }
    }

    /// Binds the identifier of an indirect reference to an asset, or to none. The references that
    /// it holds go to the new asset.
    pub fn bind(&mut self, handle: LoadHandle, choice: Option<AssetUuid>) -> (r: Result<
        (),
        LoaderError,
    >)
        requires
            old(self).wf(),
        ensures
            final(self).wf(),
            final(self).kept(*old(self)),
            final(self)@.extends(old(self)@),
            old(self)@.indirects.contains_key(handle.0) ==> {
                &&& r is Ok
                &&& final(self)@ == old(self)@.bind(handle.0, choice, final(self)@.by_uuid)
            },
            !old(self)@.indirects.contains_key(handle.0) ==> {
                &&& r matches Err(LoaderError::MissingIndirect(missing)) && missing == handle
                &&& final(self)@ == old(self)@
            },
    {
        let key: u64 = handle.0;
        let indirect = match self.take_indirect(key) {
            Some(indirect) => indirect,
            None => {
                assert(self@ =~= old(self)@);
                return Err(LoaderError::MissingIndirect(handle));
            },
        };
        let num_refs: usize = indirect.refs;
        let resolved = indirect.resolved_uuid;
        self.put_indirect(key, indirect);
        assert(self@ =~= old(self)@);
        if let Some(uuid) = resolved {
            let uuid_handle = self.get_or_insert(uuid);
            proof {
                self@.lemma_remove_chain_keeps(
                    uuid_handle,
                    num_refs,
                    self@.indirects.dom().len() + 1,
                );
            }
            self.remove_refs(uuid_handle, num_refs);
        }
        match choice {
            Some(uuid) => {
                let uuid_handle = self.add_refs(uuid, num_refs);
                self.set_table(key, Some(uuid_handle.0));
            },
            None => {
                self.set_table(key, None);
            },
        }
        if let Some(mut indirect) = self.take_indirect(key) {
            indirect.resolved_uuid = choice;
            indirect.state = IndirectHandleState::Resolved;
            self.put_indirect(key, indirect);
        }
        assert(self@ =~= old(self)@.bind(key, choice, self@.by_uuid));
        assert(self@.wf());
        Ok(())
    }

    /// Takes in an answer about an identifier: the resolver picks the asset to bind it to.
    pub fn receive_resolve_response<R: IndirectionResolver + ?Sized>(
        &mut self,
        response: ResolveResponse,
        resolver: &R,
    ) -> (r: Result<(), LoaderError>)
        requires
            old(self).wf(),
        ensures
            final(self).wf(),
            final(self).kept(*old(self)),
            final(self)@.extends(old(self)@),
            !old(self)@.indirects.contains_key(response.handle.0) ==> {
                &&& r matches Err(LoaderError::MissingIndirect(missing)) && missing
                    == response.handle
                &&& final(self)@ == old(self)@
            },
            old(self)@.indirects.contains_key(response.handle.0) ==> r is Ok && (exists|
                choice: Option<AssetUuid>,
            | #[trigger]
                response@.allows(resolver, choice) && Ok::<LoaderView, ErrorView>(final(self)@)
                    == old(self)@.receive_candidates(response@, choice, final(self)@.by_uuid)),
    {
        let ghost message = response@;
        let ResolveResponse { result, id, handle } = response;
        match self.take_indirect(handle.0) {
            Some(mut indirect) => match result {
                Ok(candidates) => {
                    let choice = resolver.resolve(&id, candidates);
                    assert(message.allows(resolver, choice));
                    self.put_indirect(handle.0, indirect);
                    assert(self@ =~= old(self)@);
                    self.bind(handle, choice)
                },
                Err(text) => {
                    assert(message.allows(resolver, None));
                    let ghost failure = FailureView::Resolve(handle, text@);
                    self.note_failure(Failure::Resolve(handle, text));
                    indirect.state = IndirectHandleState::Idle;
                    self.put_indirect(handle.0, indirect);
                    assert(self@ =~= old(self)@.failed(failure).with_indirect(
                        handle.0,
                        indirect@,
                    ));
                    Ok(())
                },
            },
            None => {
                assert(self@ =~= old(self)@);
                Err(LoaderError::MissingIndirect(handle))
            },
        }
    }

    /// Notes that the candidates that are needed are asked for, and returns the requests.
    pub fn request_candidates(&mut self) -> (r: Vec<ResolveRequest>)
        requires
            old(self).wf(),
        ensures
            final(self).wf(),
            final(self).kept(*old(self)),
            final(self)@ == old(self)@.candidates_requested(),
            exists|keys: Seq<u64>|
                keys.no_duplicates() && keys.to_set() == old(self)@.indirects.dom() && old(
                    self,
                ).links().asks_for_candidates(
                    identifier_requests(r@),
                    #[trigger] old(self)@.candidates_wanted(keys),
                ),
    {
        let ghost before = self@;
        let keys = self.list_indirects();
        let mut requests: Vec<ResolveRequest> = Vec::new();
        let mut i: usize = 0;
        proof {
            assert(keys@.take(0) =~= Seq::empty());
            assert(identifier_requests(requests@) =~= Seq::empty());
        }
        while i < keys.len()
            invariant
                i <= keys.len(),
                keys@.no_duplicates(),
                keys@.to_set() == before.indirects.dom(),
                self.owned(),
                self.kept(*old(self)),
                self@ == (LoaderView { indirects: self@.indirects, ..before }),
                self@.indirects.dom() == before.indirects.dom(),
                forall|j: int|
                    0 <= j < i ==> self@.indirects[#[trigger] keys@[j]]
                        == before.indirects[keys@[j]].requested(),
                forall|j: int|
                    i <= j < keys@.len() ==> self@.indirects[#[trigger] keys@[j]]
                        == before.indirects[keys@[j]],
                old(self).links().asks_for_candidates(
                    identifier_requests(requests@),
                    before.candidates_wanted(keys@.take(i as int)),
                ),
            decreases keys.len() - i,
        {
            let key: u64 = keys[i];
            assert(keys@.to_set().contains(keys@[i as int]));
            assert(keys@.take(i + 1).drop_last() =~= keys@.take(i as int));
            if let Some(mut indirect) = self.take_indirect(key) {
                if indirect.state == IndirectHandleState::WaitingForMetadata {
                    let ghost asked = identifier_requests(requests@);
                    indirect.state = IndirectHandleState::RequestingMetadata;
                    let tx = self.resolve_sender();
                    let request = ResolveRequest {
                        tx,
                        id: indirect.id.clone(),
                        handle: LoadHandle(key),
                    };
                    requests.push(request);
                    assert(identifier_requests(requests@) =~= asked.push(
                        ((indirect@.id, LoadHandle(key)), tx),
                    ));
                }
                self.put_indirect(key, indirect);
            }
            i = i + 1;
        }
        proof {
            assert(keys@.take(keys.len() as int) =~= keys@);
            assert forall|key: u64| self@.indirects.contains_key(key) implies self@.indirects[key]
                == before.indirects[key].requested() by {
                assert(keys@.to_set().contains(key));
                let j = choose|j: int| 0 <= j < keys@.len() && keys@[j] == key;
                assert(self@.indirects[keys@[j]] == before.indirects[keys@[j]].requested());
            }
            assert(self@ =~= before.candidates_requested());
            assert(self@.wf());
        }
        requests
    }

    /// Takes in the answers about identifiers that have come, and asks for the candidates that are
    /// needed.
    pub fn process_resolve_requests<I: LoaderIO<A> + ?Sized, R: IndirectionResolver + ?Sized>(
        &mut self,
        io: &mut I,
        resolver: &R,
    ) -> (r: Result<(), LoaderError>)
        requires
            old(self).wf(),
        ensures
            final(self).wf(),
            final(self).links() == old(self).links(),
            final(self)@.extends(old(self)@),
            old(self)@.may_request_candidates(
                resolver,
                old(self).links(),
                old(self).taken(),
                final(self).taken(),
                old(io).calls(),
                final(io).calls(),
                outcome(r, final(self)@),
            ),
    {
        let ghost mut messages: Seq<(ResolveMessage, Option<AssetUuid>)> = Seq::empty();
        assert(self.taken() =~= self.taken().with_resolve(resolve_messages(messages)));
        // The budget only bounds the loop: so many messages never come.
        let mut budget: u64 = u64::MAX;
        while budget > 0
            invariant
                self.wf(),
                self.links() == old(self).links(),
                self.taken() == old(self).taken().with_resolve(resolve_messages(messages)),
                messages.len() == u64::MAX - budget,
                self@.extends(old(self)@),
                io.calls() == old(io).calls(),
                old(self)@.may_receive_all_candidates(resolver, messages, Ok(self@)),
            ensures
                messages.len() == u64::MAX || old(self).links().may_deliver_resolve(None),
            decreases budget,
        {
            let response = match self.next_resolve() {
                Some(response) => response,
                None => break,
            };
            let ghost before = self@;
            let ghost message = response@;
            let received = self.receive_resolve_response(response, resolver);
            proof {
                let choice = if before.indirects.contains_key(message.handle.0) {
                    choose|choice: Option<AssetUuid>| #[trigger]
                        message.allows(resolver, choice) && Ok::<LoaderView, ErrorView>(self@)
                            == before.receive_candidates(message, choice, self@.by_uuid)
                } else {
                    None
                };
                let more = messages.push((message, choice));
                assert(more.drop_last() =~= messages);
                assert(resolve_messages(more) =~= resolve_messages(messages).push(message));
                assert(self.taken() =~= old(self).taken().with_resolve(resolve_messages(more)));
                assert(outcome(received, self@) == before.receive_candidates(
                    more.last().0,
                    more.last().1,
                    self@.by_uuid,
                ));
                assert(old(self)@.may_receive_all_candidates(
                    resolver,
                    more,
                    outcome(received, self@),
                ));
                messages = more;
            }
            if let Err(error) = received {
                return Err(error);
            }
            budget = budget - 1;
        }
        let ghost mid = self@;
        assert(old(self)@.may_receive_all_candidates(resolver, messages, Ok(mid)));
        let requests = self.request_candidates();
        assert(identifier_requests(requests@).len() == requests@.len());
        if requests.len() > 0 {
            io.get_asset_candidates(requests);
        }
        Ok(())
    }
}

} // verus!
