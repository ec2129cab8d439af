//! Which assets get loads.

use vstd::prelude::*;
use crate::data_requests::DataMessage;
use crate::error::ErrorView;
use crate::ids::{AssetUuid, LoadHandle};
use crate::load_ops::OpMessage;
use crate::metadata::MetadataView;
use crate::metadata_requests::MetadataMessage;
use crate::model::{LoaderView, PendingReload};
use crate::pass::{PassState, Stage};
use crate::resolve_requests::ResolveMessage;
use crate::storage::IndirectionResolver;
use crate::data_requests::data_messages;
use crate::model::came_to;

verus! {

/// Looking for changed assets, the outcomes of load operations, the pass over the indirect
/// references and data make no loads.
pub proof fn law_other_stages_make_no_loads<R: IndirectionResolver + ?Sized>(
    before: PassState,
    stage: Stage,
    resolver: &R,
    after: PassState,
)
    requires
        before.may_run(stage, resolver, after, None),
        stage is AssetChanges || stage is LoadOps || stage is IndirectStates
            || stage is DataRequests,
    ensures
        after.loader.by_uuid == before.loader.by_uuid,
{
    let s = before.loader;
    match stage {
        Stage::AssetChanges => {
            if s.pending_reloads.len() == 0 {
                let order = choose|order: Seq<u128>|
                    {
                        &&& order.no_duplicates()
                        &&& order.to_set() == s.invalidated.to_set()
                        &&& Ok::<LoaderView, ErrorView>(after.loader) == Ok::<
                            LoaderView,
                            ErrorView,
                        >(#[trigger] s.drained().mark_all_changed(order))
                    };
                lemma_marking_keeps_handles(s.drained(), order);
            } else if s.reloads_finished() {
                lemma_committing_keeps_handles(s, s.pending_reloads);
            }
        },
        Stage::LoadOps => {
            let ops = choose|ops: Seq<OpMessage>|
                {
                    &&& came_to(
                        #[trigger] s.receive_all_ops(ops),
                        before.storage,
                        after.storage,
                        Ok(after.loader),
                    )
                    &&& after.taken == before.taken.with_ops(ops)
                };
            lemma_ops_keep_handles(s, ops);
        },
        Stage::DataRequests => {
            let messages = choose|messages: Seq<(DataMessage, Option<Seq<char>>)>|
                {
                    &&& after.taken == before.taken.with_data(
                        data_messages(messages),
                    )
                    &&& #[trigger] s.receive_all_data(messages) matches Ok((mid, calls))
                        && mid.may_ask_data(before.links, before.io, after.io, after.loader)
                };
            lemma_data_keeps_handles(s, messages);
        },
        _ => {},
    }
}

/// When metadata is taken in, only assets whose descriptions have come get loads.
pub proof fn law_metadata_makes_loads_for_described_assets(
    s: LoaderView,
    messages: Seq<MetadataMessage>,
    after: LoaderView,
    uuid: u128,
)
    requires
        s.may_receive_all_metadata(messages, Ok(after)),
        after.by_uuid.contains_key(uuid),
        !s.by_uuid.contains_key(uuid),
    ensures
        exists|k: int| 0 <= k < messages.len() && (#[trigger] messages[k]).describes(uuid),
    decreases messages.len(),
{
    if messages.len() > 0 {
        let init = messages.drop_last();
        let message = messages.last();
        let (mid, fresh) = choose|mid: LoaderView, fresh: Map<u128, u64>|
            {
                &&& s.may_receive_all_metadata(init, Ok(mid))
                &&& #[trigger] mid.may_receive_metadata(
                    message,
                    fresh,
                    Ok::<LoaderView, ErrorView>(after),
                )
                &&& fresh == after.by_uuid && after.extends(mid)
            };
        if mid.by_uuid.contains_key(uuid) {
            law_metadata_makes_loads_for_described_assets(s, init, mid, uuid);
            let k = choose|k: int| 0 <= k < init.len() && (#[trigger] init[k]).describes(uuid);
            assert(messages[k] == init[k]);
        } else {
            let (t, rest) = mid.take_descriptions(message, fresh)->Ok_0;
            let order = choose|order: Seq<u128>|
                {
                    &&& order.no_duplicates()
                    &&& order.to_set() == rest.dom()
                    &&& Ok::<LoaderView, ErrorView>(after) == #[trigger] t.requeue_all(rest, order)
                };
            lemma_requeueing_keeps_handles(t, rest, order);
            if let Ok(list) = message.found {
                lemma_descriptions_make_loads(mid, list, message.requests, fresh, uuid);
            }
            assert(messages[messages.len() - 1].describes(uuid));
        }
    }
}

impl MetadataMessage {
    /// The answer has a description of an asset.
    pub open spec fn describes(self, uuid: u128) -> bool {
        self.found matches Ok(list) && exists|i: int|
            0 <= i < list.len() && (#[trigger] list[i]).asset_id.0 == uuid
    }
}

/// When candidates are taken in, only assets to which the resolver binds an identifier get loads.
pub proof fn law_candidates_make_loads_for_bound_assets<R: IndirectionResolver + ?Sized>(
    s: LoaderView,
    resolver: &R,
    messages: Seq<(ResolveMessage, Option<AssetUuid>)>,
    after: LoaderView,
    uuid: u128,
)
    requires
        s.may_receive_all_candidates(resolver, messages, Ok(after)),
        after.by_uuid.contains_key(uuid),
        !s.by_uuid.contains_key(uuid),
    ensures
        exists|k: int|
            0 <= k < messages.len() && (#[trigger] messages[k]).1 == Some(AssetUuid(uuid))
                && messages[k].0.allows(resolver, Some(AssetUuid(uuid))),
    decreases messages.len(),
{
    if messages.len() > 0 {
        let init = messages.drop_last();
        let (message, choice) = messages.last();
        let (mid, fresh) = choose|mid: LoaderView, fresh: Map<u128, u64>|
            {
                &&& s.may_receive_all_candidates(resolver, init, Ok(mid))
                &&& Ok::<LoaderView, ErrorView>(after) == #[trigger] mid.receive_candidates(
                    message,
                    choice,
                    fresh,
                )
                &&& message.allows(resolver, choice)
                &&& fresh == after.by_uuid && after.extends(mid)
            };
        if mid.by_uuid.contains_key(uuid) {
            law_candidates_make_loads_for_bound_assets(s, resolver, init, mid, uuid);
            let k = choose|k: int|
                0 <= k < init.len() && (#[trigger] init[k]).1 == Some(AssetUuid(uuid))
                    && init[k].0.allows(resolver, Some(AssetUuid(uuid)));
            assert(messages[k] == init[k]);
        } else {
            let indirect = mid.indirects[message.handle.0];
            if let Some(bound) = indirect.resolved_uuid {
                mid.lemma_remove_chain_keeps(
                    LoadHandle(mid.by_uuid[bound.0]),
                    indirect.refs,
                    mid.indirects.dom().len() + 1,
                );
            }
            assert(messages[messages.len() - 1] == (message, choice));
        }
    }
}

/// Marking assets as changed keeps the handles.
proof fn lemma_marking_keeps_handles(s: LoaderView, order: Seq<u128>)
    ensures
        s.mark_all_changed(order).by_uuid == s.by_uuid,
    decreases order.len(),
{
    if order.len() > 0 {
        lemma_marking_keeps_handles(s, order.drop_last());
    }
}

/// Committing reloads keeps the handles.
proof fn lemma_committing_keeps_handles(s: LoaderView, reloads: Seq<PendingReload>)
    ensures
        s.commit_reloads(reloads) matches Ok((t, calls)) ==> t.by_uuid == s.by_uuid,
    decreases reloads.len(),
{
    if reloads.len() > 0 {
        lemma_committing_keeps_handles(s, reloads.drop_last());
    }
}

/// The outcomes of load operations keep the handles.
proof fn lemma_ops_keep_handles(s: LoaderView, ops: Seq<OpMessage>)
    ensures
        s.receive_all_ops(ops) matches Ok((t, calls)) ==> t.by_uuid == s.by_uuid,
    decreases ops.len(),
{
    if ops.len() > 0 {
        lemma_ops_keep_handles(s, ops.drop_last());
    }
}

/// Answers with data keep the handles.
proof fn lemma_data_keeps_handles(s: LoaderView, messages: Seq<(DataMessage, Option<Seq<char>>)>)
    ensures
        s.receive_all_data(messages) matches Ok((t, calls)) ==> t.by_uuid == s.by_uuid,
    decreases messages.len(),
{
    if messages.len() > 0 {
        lemma_data_keeps_handles(s, messages.drop_last());
    }
}

/// Making requests again keeps the handles.
proof fn lemma_requeueing_keeps_handles(
    s: LoaderView,
    requests: Map<u128, (LoadHandle, u32)>,
    order: Seq<u128>,
)
    ensures
        s.requeue_all(requests, order) matches Ok(t) ==> t.by_uuid == s.by_uuid,
    decreases order.len(),
{
    if order.len() > 0 {
        lemma_requeueing_keeps_handles(s, requests, order.drop_last());
    }
}

/// Only assets that are described get loads.
proof fn lemma_descriptions_make_loads(
    s: LoaderView,
    list: Seq<MetadataView>,
    requests: Map<u128, (LoadHandle, u32)>,
    fresh: Map<u128, u64>,
    uuid: u128,
)
    requires
        s.describe_all(list, requests, fresh) matches Ok((t, rest)) && t.by_uuid.contains_key(uuid),
        !s.by_uuid.contains_key(uuid),
    ensures
        exists|i: int| 0 <= i < list.len() && (#[trigger] list[i]).asset_id.0 == uuid,
    decreases list.len(),
{
    if list.len() > 0 {
        let init = list.drop_last();
        let (mid, rest) = s.describe_all(init, requests, fresh)->Ok_0;
        if mid.by_uuid.contains_key(uuid) {
            lemma_descriptions_make_loads(s, init, requests, fresh, uuid);
            let i = choose|i: int| 0 <= i < init.len() && (#[trigger] init[i]).asset_id.0 == uuid;
            assert(list[i] == init[i]);
        } else {
            assert(list[list.len() - 1].asset_id.0 == uuid);
        }
    }
}

} // verus!
