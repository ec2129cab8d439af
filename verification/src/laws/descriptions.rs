//! Metadata: for which versions it is asked, and what it does when it comes.

use vstd::prelude::*;
use crossbeam_channel::Sender;
use crate::error::{ErrorView, FailureView};
use crate::ids::{AssetUuid, LoadHandle};
use crate::io::IoCall;
use crate::load::{LoadState, LoadView, VersionQuery, VersionView};
use crate::messages::MetadataResponse;
use crate::metadata::MetadataView;
use crate::metadata_requests::MetadataMessage;
use crate::model::LoaderView;
use crate::pass::{PassState, Stage};
use crate::storage::IndirectionResolver;
use crate::load::{is_first, lemma_position_none, lemma_position_some};
use crate::metadata_requests::last_waiting;
use crate::model::{distinct_handles, lemma_part_distinct, part_of};
use crate::laws::processes::{
    lemma_metadata_of_others, lemma_requeues_keep_handles, lemma_requeues_of_others,
};

verus! {

impl VersionView {
    /// The version with a description. If it had asked for one, it goes on to request its
    /// dependencies; otherwise it stays in its state.
    pub open spec fn has_got(self, m: MetadataView, after: VersionView) -> bool {
        &&& after.metadata == Some(m)
        &&& after.state == (if self.state == LoadState::RequestingMetadata {
            LoadState::RequestDependencies
        } else {
            self.state
        })
        &&& after.asset_type == self.asset_type
        &&& after.auto_commit == self.auto_commit
        &&& after.version == self.version
    }
}

impl LoadView {
    /// In a later state of the load, the version at place `i` has got a description, and nothing
    /// else has changed.
    pub open spec fn has_got(self, i: int, m: MetadataView, after: LoadView) -> bool {
        &&& after.versions.len() == self.versions.len()
        &&& self.versions[i].has_got(m, after.versions[i])
        &&& forall|j: int|
            0 <= j < self.versions.len() && j != i ==> #[trigger] after.versions[j]
                == self.versions[j]
        &&& after == (LoadView { versions: after.versions, ..self })
    }

    /// In a later state of the load, there is one more version, with the next number, which has a
    /// description, with which nothing goes on, and which comes into use by itself; nothing else
    /// has changed.
    pub open spec fn has_got_anew(self, m: MetadataView, after: LoadView) -> bool {
        &&& after.version_counter == self.version_counter + 1
        &&& after.versions.len() == self.versions.len() + 1
        &&& after.versions.last() == (VersionView {
            state: LoadState::Idle,
            metadata: Some(m),
            asset_type: None,
            auto_commit: true,
            version: after.version_counter,
        })
        &&& forall|j: int|
            0 <= j < self.versions.len() ==> #[trigger] after.versions[j] == self.versions[j]
        &&& after == (LoadView {
            versions: after.versions,
            version_counter: after.version_counter,
            ..self
        })
    }
}

/// A description that was asked for goes to the version that asked, and to no other.
pub proof fn law_description_goes_to_version_that_asked(
    s: LoaderView,
    m: MetadataView,
    handle: LoadHandle,
    version: u32,
    fresh: Map<u128, u64>,
    i: int,
)
    ensures
        !s.loads.contains_key(handle.0) ==> s.describe(m, Some((handle, version)), fresh) == Err::<
            LoaderView,
            ErrorView,
        >(ErrorView::MissingLoad(handle)),
        s.loads.contains_key(handle.0) && 0 <= i < s.loads[handle.0].versions.len()
            && s.loads[handle.0].versions[i].version == version && (forall|j: int|
            0 <= j < i ==> (#[trigger] s.loads[handle.0].versions[j]).version != version) ==> (
        s.describe(m, Some((handle, version)), fresh) matches Ok(t) && {
            &&& s.loads[handle.0].has_got(i, m, t.loads[handle.0])
            &&& t.loads == s.loads.insert(handle.0, t.loads[handle.0])
            &&& t == (LoaderView { loads: t.loads, ..s })
        }),
{
    if s.loads.contains_key(handle.0) && 0 <= i < s.loads[handle.0].versions.len()
        && s.loads[handle.0].versions[i].version == version && (forall|j: int|
        0 <= j < i ==> (#[trigger] s.loads[handle.0].versions[j]).version != version) {
        assert(is_first(s.loads[handle.0].versions, VersionQuery::Number(version), i));
        lemma_position_some(s.loads[handle.0].versions, VersionQuery::Number(version), i);
    }
}

/// A description that nobody asked for goes to the first version of its asset that has none. If
/// every version has one, there is a new version, which comes into use by itself; and if the asset
/// has no load, it gets one that nothing refers to, the first version of which has the description.
pub proof fn law_unasked_description_is_kept(
    s: LoaderView,
    m: MetadataView,
    fresh: Map<u128, u64>,
    i: int,
)
    requires
        s.wf(),
    ensures
        s.by_uuid.contains_key(m.asset_id.0) ==> {
            let key = s.by_uuid[m.asset_id.0];
            let load = s.loads[key];
            let r = s.describe(m, None, fresh);
            &&& 0 <= i < load.versions.len() && load.versions[i].metadata is None && (forall|
                j: int,
            |
                0 <= j < i ==> (#[trigger] load.versions[j]).metadata is Some) ==> (r matches Ok(t)
                && load.has_got(i, m, t.loads[key]))
            &&& (forall|j: int|
                0 <= j < load.versions.len() ==> (#[trigger] load.versions[j]).metadata is Some)
                ==> if load.version_counter < u32::MAX {
                r matches Ok(t) && load.has_got_anew(m, t.loads[key])
            } else {
                r == Err::<LoaderView, ErrorView>(ErrorView::VersionsExhausted(LoadHandle(key)))
            }
            &&& r matches Ok(t) ==> {
                &&& t.loads == s.loads.insert(key, t.loads[key])
                &&& t == (LoaderView { loads: t.loads, ..s })
            }
        },
        !s.by_uuid.contains_key(m.asset_id.0) ==> (s.describe(m, None, fresh) matches Ok(t) && {
            let key = fresh[m.asset_id.0];
            &&& t.by_uuid == s.by_uuid.insert(m.asset_id.0, key)
            &&& t.given == s.given.push(LoadHandle(key))
            &&& t.loads == s.loads.insert(
                key,
                LoadView {
                    asset_id: AssetUuid(m.asset_id.0),
                    refs: 0,
                    versions: seq![
                        VersionView {
                            state: LoadState::Idle,
                            metadata: Some(m),
                            asset_type: None,
                            auto_commit: true,
                            version: 1,
                        },
                    ],
                    version_counter: 1,
                    pending_reload: false,
                },
            )
            &&& t == (LoaderView { loads: t.loads, by_uuid: t.by_uuid, given: t.given, ..s })
        }),
{
    let none = VersionQuery::NoMetadata;
    if s.by_uuid.contains_key(m.asset_id.0) {
        let load = s.loads[s.by_uuid[m.asset_id.0]];
        assert(s.loads.contains_key(s.by_uuid[m.asset_id.0]));
        lemma_position_none(load.versions, none);
        if 0 <= i < load.versions.len() && load.versions[i].metadata is None && (forall|j: int|
            0 <= j < i ==> (#[trigger] load.versions[j]).metadata is Some) {
            assert(is_first(load.versions, none, i));
            lemma_position_some(load.versions, none, i);
        }
    } else {
        let begun = s.with_new_load(m.asset_id.0, fresh[m.asset_id.0]);
        let load = begun.loads[fresh[m.asset_id.0]];
        assert(is_first(load.versions, none, 0));
        lemma_position_some(load.versions, none, 0);
        let t = s.describe(m, None, fresh)->Ok_0;
        let after = t.loads[fresh[m.asset_id.0]];
        assert(after.versions =~= seq![
            VersionView {
                state: LoadState::Idle,
                metadata: Some(m),
                asset_type: None,
                auto_commit: true,
                version: 1,
            },
        ]);
        assert(t.loads =~= s.loads.insert(fresh[m.asset_id.0], after));
    }
}

impl MetadataMessage {
    /// Of what an answer has and what was asked for, nothing is about the load at `key`, the load
    /// of an asset, but for the description and the request of that asset.
    pub open spec fn only_about(self, key: u64, uuid: u128) -> bool {
        forall|other: u128|
            #![trigger self.requests.contains_key(other)]
            self.requests.contains_key(other) && other != uuid ==> self.requests[other].0.0 != key
    }
}

/// An answer that has the description of an asset once gives it to the load of the asset: to the
/// version that asked for it if one did, and otherwise as one that nobody asked for.
pub proof fn law_each_description_has_its_effect(
    s: LoaderView,
    message: MetadataMessage,
    after: LoaderView,
    list: Seq<MetadataView>,
    i: int,
    key: u64,
)
    requires
        s.may_receive_metadata(message, after.by_uuid, Ok(after)),
        distinct_handles(after.by_uuid),
        s.loads.contains_key(key),
        message.found == Ok::<Seq<MetadataView>, Seq<char>>(list),
        0 <= i < list.len(),
        s.by_uuid.contains_key(list[i].asset_id.0),
        s.by_uuid[list[i].asset_id.0] == key,
        forall|j: int|
            0 <= j < list.len() && j != i ==> (#[trigger] list[j]).asset_id != list[i].asset_id,
        message.only_about(key, list[i].asset_id.0),
        message.requests.contains_key(list[i].asset_id.0) ==> message.requests[list[i].asset_id.0].0
            == LoadHandle(key),
    ensures
        after.loads.contains_key(key),
        s.describe(
            list[i],
            message.requests.get(list[i].asset_id.0),
            after.by_uuid,
        ) matches Ok(alone) && after.loads[key] == alone.loads[key],
{
    let fresh = after.by_uuid;
    let uuid = list[i].asset_id.0;
    let (mid, rest) = s.describe_all(list, message.requests, fresh)->Ok_0;
    let order = choose|order: Seq<u128>|
        {
            &&& order.no_duplicates()
            &&& order.to_set() == rest.dom()
            &&& Ok::<LoaderView, ErrorView>(after) == #[trigger] mid.requeue_all(rest, order)
        };
    lemma_requeues_keep_handles(mid, rest, order);
    assert(part_of(mid.by_uuid, fresh));
    lemma_describe_all_handles(s, list, message.requests, fresh);
    assert(fresh.contains_key(uuid) && fresh[uuid] == key);
    lemma_described_alone(s, list, message.requests, fresh, i, key);
    assert forall|x: int| 0 <= x < order.len() implies rest[#[trigger] order[x]].0.0 != key by {
        assert(order.to_set().contains(order[x]));
        assert(rest.contains_key(order[x]));
        assert(message.requests.contains_key(order[x]));
    }
    lemma_requeues_of_others(mid, rest, order, key);
}

/// A version that asked for its description and got none needs it as before, so that it is asked
/// for again; and nothing else changes in its load. The answer may have descriptions of other
/// assets, or may be that there are none.
pub proof fn law_unanswered_request_is_needed_again(
    s: LoaderView,
    message: MetadataMessage,
    after: LoaderView,
    uuid: u128,
    key: u64,
    v: int,
)
    requires
        s.may_receive_metadata(message, after.by_uuid, Ok(after)),
        distinct_handles(after.by_uuid),
        s.loads.contains_key(key),
        s.by_uuid.contains_key(uuid),
        s.by_uuid[uuid] == key,
        message.found matches Ok(list) ==> forall|j: int|
            0 <= j < list.len() ==> (#[trigger] list[j]).asset_id.0 != uuid,
        message.only_about(key, uuid),
        0 <= v < s.loads[key].versions.len(),
        s.loads[key].numbered(),
        message.requests.contains_key(uuid),
        message.requests[uuid] == (LoadHandle(key), s.loads[key].versions[v].version),
    ensures
        after.loads.contains_key(key),
        after.loads[key] == (LoadView {
            versions: s.loads[key].versions.update(
                v,
                VersionView {
                    state: if s.loads[key].versions[v].state == LoadState::RequestingMetadata {
                        LoadState::WaitingForMetadata
                    } else {
                        s.loads[key].versions[v].state
                    },
                    ..s.loads[key].versions[v]
                },
            ),
            ..s.loads[key]
        }),
{
    let fresh = after.by_uuid;
    let (mid, rest) = s.take_descriptions(message, fresh)->Ok_0;
    let order = choose|order: Seq<u128>|
        {
            &&& order.no_duplicates()
            &&& order.to_set() == rest.dom()
            &&& Ok::<LoaderView, ErrorView>(after) == #[trigger] mid.requeue_all(rest, order)
        };
    lemma_requeues_keep_handles(mid, rest, order);
    if let Ok(list) = message.found {
        lemma_describe_all_handles(s, list, message.requests, fresh);
        lemma_nothing_about(s, list, message.requests, fresh, key, uuid);
        assert(rest.contains_key(uuid));
    }
    assert(mid.loads[key] == s.loads[key]);
    assert(rest.contains_key(uuid) && rest[uuid] == message.requests[uuid]);
    assert(order.to_set().contains(uuid));
    let x = choose|x: int| 0 <= x < order.len() && order[x] == uuid;
    assert forall|y: int| 0 <= y < order.len() && y != x implies rest[#[trigger] order[y]].0.0
        != key by {
        assert(order.to_set().contains(order[y]));
        assert(rest.contains_key(order[y]));
        assert(order[y] != uuid);
        assert(message.requests.contains_key(order[y]));
    }
    lemma_requeued_alone(mid, rest, order, x, key, v);
}

/// Answers about metadata are taken in one by one, and each has its effect: if one of them is about
/// a load or its asset and no other is, then the load is, after all of them, as that one answer
/// made it from what it was before all of them. Returned are the states before and after that
/// answer.
pub proof fn law_each_metadata_answer_has_its_effect(
    s: LoaderView,
    messages: Seq<MetadataMessage>,
    after: LoaderView,
    i: int,
    key: u64,
    uuid: u128,
) -> (r: (LoaderView, LoaderView))
    requires
        s.may_receive_all_metadata(messages, Ok(after)),
        0 <= i < messages.len(),
        forall|j: int|
            0 <= j < messages.len() && j != i ==> !(#[trigger] messages[j]).is_about(key, uuid),
        distinct_handles(after.by_uuid),
        s.by_uuid.contains_key(uuid),
        s.by_uuid[uuid] == key,
        s.loads.contains_key(key),
    ensures
        r.0.may_receive_metadata(messages[i], r.1.by_uuid, Ok(r.1)),
        distinct_handles(r.1.by_uuid),
        r.0.by_uuid.contains_key(uuid),
        r.0.by_uuid[uuid] == key,
        r.0.loads.contains_key(key),
        r.0.loads[key] == s.loads[key],
        after.loads.contains_key(key),
        after.loads[key] == r.1.loads[key],
    decreases messages.len(),
{
    let init = messages.drop_last();
    let message = messages.last();
    assert(messages[messages.len() - 1] == message);
    let (mid, fresh) = choose|mid: LoaderView, fresh: Map<u128, u64>|
        {
            &&& s.may_receive_all_metadata(init, Ok(mid))
            &&& #[trigger] mid.may_receive_metadata(
                message,
                fresh,
                Ok::<LoaderView, ErrorView>(after),
            )
            &&& fresh == after.by_uuid && after.extends(mid)
        };
    lemma_part_distinct(mid.by_uuid, after.by_uuid);
    if i == messages.len() - 1 {
        assert forall|j: int| 0 <= j < init.len() implies !(#[trigger] init[j]).is_about(
            key,
            uuid,
        ) by {
            assert(init[j] == messages[j]);
        }
        lemma_metadata_of_others(s, init, mid, key, uuid);
        (mid, after)
    } else {
        assert(init[i] == messages[i]);
        assert forall|j: int| 0 <= j < init.len() && j != i implies !(
        #[trigger] init[j]).is_about(key, uuid) by {
            assert(init[j] == messages[j]);
        }
        let r = law_each_metadata_answer_has_its_effect(s, init, mid, i, key, uuid);
        let one = seq![message];
        assert(one.drop_last() =~= Seq::empty());
        assert(mid.may_receive_all_metadata(one.drop_last(), Ok(mid)));
        assert(mid.may_receive_metadata(one.last(), fresh, Ok::<LoaderView, ErrorView>(after)));
        assert(mid.may_receive_all_metadata(one, Ok(after)));
        assert(!messages[messages.len() - 1].is_about(key, uuid));
        lemma_metadata_keeps_handles(s, init, mid);
        lemma_metadata_of_others(mid, one, after, key, uuid);
        r
    }
}

/// Answers about metadata keep the handles of assets.
proof fn lemma_metadata_keeps_handles(
    s: LoaderView,
    messages: Seq<MetadataMessage>,
    after: LoaderView,
)
    requires
        s.may_receive_all_metadata(messages, Ok(after)),
    ensures
        part_of(s.by_uuid, after.by_uuid),
    decreases messages.len(),
{
    if messages.len() > 0 {
        let init = messages.drop_last();
        let (mid, fresh) = choose|mid: LoaderView, fresh: Map<u128, u64>|
            {
                &&& s.may_receive_all_metadata(init, Ok(mid))
                &&& #[trigger] mid.may_receive_metadata(
                    messages.last(),
                    fresh,
                    Ok::<LoaderView, ErrorView>(after),
                )
                &&& fresh == after.by_uuid && after.extends(mid)
            };
        lemma_metadata_keeps_handles(s, init, mid);
    }
}

/// That metadata could not be fetched is noted once, with what was said.
pub proof fn law_failed_metadata_is_noted(
    s: LoaderView,
    message: MetadataMessage,
    fresh: Map<u128, u64>,
    after: LoaderView,
    text: Seq<char>,
)
    requires
        s.may_receive_metadata(message, fresh, Ok(after)),
        message.found == Err::<Seq<MetadataView>, Seq<char>>(text),
    ensures
        after.failures == s.failures.push(FailureView::Metadata(text)),
        after.by_uuid == s.by_uuid,
        after.loads.dom() == s.loads.dom(),
{
    let (mid, rest) = s.take_descriptions(message, fresh)->Ok_0;
    let order = choose|order: Seq<u128>|
        {
            &&& order.no_duplicates()
            &&& order.to_set() == rest.dom()
            &&& Ok::<LoaderView, ErrorView>(after) == #[trigger] mid.requeue_all(rest, order)
        };
    lemma_requeues_keep(mid, rest, order);
    assert(after.loads.dom() =~= s.loads.dom());
}

/// Once the answers that came are taken in, the loader asks for metadata exactly if some version of
/// some load needs it, in one request, the answer to which comes to the loader. For each asset with
/// such a version the request names its load and the last such version, and no other asset is in
/// it. After that the versions that needed it wait for the answer, and nothing else has changed.
/// Returned are the answers that came, the state after taking them in, and the request, if there is
/// one.
pub proof fn law_needed_metadata_is_requested<R: IndirectionResolver + ?Sized>(
    before: PassState,
    resolver: &R,
    after: PassState,
) -> (r: (
    Seq<MetadataMessage>,
    LoaderView,
    Option<(Map<u128, (LoadHandle, u32)>, Sender<MetadataResponse>)>,
))
    requires
        before.may_run(Stage::MetadataRequests, resolver, after, None),
    ensures
        after.storage == before.storage,
        after.taken.metadata == before.taken.metadata + r.0,
        before.loader.may_receive_all_metadata(r.0, Ok(r.1)),
        match r.2 {
            None => {
                &&& after.io == before.io
                &&& forall|key: u64, i: int|
                    #![trigger r.1.loads[key].versions[i]]
                    r.1.loads.contains_key(key) && 0 <= i
                        < r.1.loads[key].versions.len()
                        ==> r.1.loads[key].versions[i].state
                        != LoadState::WaitingForMetadata
            },
            Some((wanted, tx)) => {
                &&& after.io == before.io.push(IoCall::Metadata(wanted, tx))
                &&& before.links.hears_metadata(tx)
                &&& forall|uuid: u128| #[trigger]
                    wanted.contains_key(uuid) ==> r.1.by_uuid.contains_key(uuid)
                        && wanted[uuid].0 == LoadHandle(r.1.by_uuid[uuid])
                        && r.1.loads[r.1.by_uuid[uuid]].last_needs(
                        wanted[uuid].1,
                    )
                &&& forall|key: u64, i: int|
                    #![trigger r.1.loads[key].versions[i]]
                    r.1.loads.contains_key(key) && 0 <= i
                        < r.1.loads[key].versions.len()
                        && r.1.loads[key].versions[i].state
                        == LoadState::WaitingForMetadata ==> wanted.contains_key(
                        r.1.loads[key].asset_id.0,
                    )
            },
        },
        after.loader.loads.dom() == r.1.loads.dom(),
        after.loader == (LoaderView { loads: after.loader.loads, ..r.1 }),
        forall|key: u64|
            #![trigger after.loader.loads[key]]
            r.1.loads.contains_key(key) ==> {
                let load = r.1.loads[key];
                &&& after.loader.loads[key] == (LoadView {
                    versions: after.loader.loads[key].versions,
                    ..load
                })
                &&& after.loader.loads[key].versions.len() == load.versions.len()
                &&& forall|i: int|
                    0 <= i < load.versions.len() ==> (
                    #[trigger] after.loader.loads[key].versions[i]) == (VersionView {
                        state: if load.versions[i].state == LoadState::WaitingForMetadata {
                            LoadState::RequestingMetadata
                        } else {
                            load.versions[i].state
                        },
                        ..load.versions[i]
                    })
            },
{
    let begun = before.loader;
    let (messages, received) = choose|
        messages: Seq<MetadataMessage>,
        received: Result<LoaderView, ErrorView>,
    |
        {
            &&& #[trigger] begun.may_receive_all_metadata(messages, received)
            &&& after.taken == before.taken.with_metadata(messages)
            &&& received matches Ok(mid) && after.loader == mid.metadata_requested()
                && before.links.asked_metadata(before.io, mid.metadata_wanted(), after.io)
        };
    let s = received->Ok_0;
    let wanted = s.metadata_wanted();
    assert(after.loader.loads.dom() =~= s.loads.dom());
    assert forall|key: u64, i: int|
        #![trigger s.loads[key].versions[i]]
        s.loads.contains_key(key) && 0 <= i < s.loads[key].versions.len()
            && s.loads[key].versions[i].state == LoadState::WaitingForMetadata implies
        wanted.contains_key(s.loads[key].asset_id.0) by {
        lemma_last_needs(s.loads[key]);
        assert(after.loader.loads.contains_key(key));
        assert(after.loader.loads[key].asset_id == s.loads[key].asset_id);
        assert(s.by_uuid[s.loads[key].asset_id.0] == key);
        assert(s.wants_metadata(s.loads[key].asset_id.0));
    }
    assert forall|uuid: u128| #[trigger] wanted.contains_key(uuid) implies s.by_uuid.contains_key(
        uuid,
    ) && wanted[uuid].0 == LoadHandle(s.by_uuid[uuid]) && s.loads[s.by_uuid[uuid]].last_needs(
        wanted[uuid].1,
    ) by {
        assert(s.wants_metadata(uuid));
        lemma_last_needs(s.loads[s.by_uuid[uuid]]);
    }
    if wanted == Map::<u128, (LoadHandle, u32)>::empty() {
        assert forall|key: u64, i: int|
            #![trigger s.loads[key].versions[i]]
            s.loads.contains_key(key) && 0 <= i < s.loads[key].versions.len() implies
            s.loads[key].versions[i].state != LoadState::WaitingForMetadata by {
            if s.loads[key].versions[i].state == LoadState::WaitingForMetadata {
                assert(wanted.contains_key(s.loads[key].asset_id.0));
            }
        }
        (messages, s, None)
    } else {
        let tx = choose|tx: Sender<MetadataResponse>| #[trigger]
            before.links.hears_metadata(tx) && after.io == before.io.push(
                IoCall::Metadata(wanted, tx),
            );
        (messages, s, Some((wanted, tx)))
    }
}

impl LoadView {
    /// A number is that of the last version that needs its description.
    pub open spec fn last_needs(self, version: u32) -> bool {
        exists|i: int|
            {
                &&& 0 <= i < self.versions.len()
                &&& (#[trigger] self.versions[i]).version == version
                &&& self.versions[i].state == LoadState::WaitingForMetadata
                &&& forall|j: int|
                    i < j < self.versions.len() ==> (#[trigger] self.versions[j]).state
                        != LoadState::WaitingForMetadata
            }
    }
}

proof fn lemma_last_needs(load: LoadView)
    ensures
        last_waiting(load.versions) matches Some(version) ==> load.last_needs(version),
        last_waiting(load.versions) is None ==> forall|i: int|
            0 <= i < load.versions.len() ==> (#[trigger] load.versions[i]).state
                != LoadState::WaitingForMetadata,
    decreases load.versions.len(),
{
    if load.versions.len() > 0 {
        let last = load.versions.len() - 1;
        let init = LoadView { versions: load.versions.drop_last(), ..load };
        assert(load.versions[last] == load.versions.last());
        if load.versions.last().state is WaitingForMetadata {
            assert(load.last_needs(load.versions[last].version));
        } else {
            lemma_last_needs(init);
            if let Some(version) = last_waiting(init.versions) {
                let i = choose|i: int|
                    {
                        &&& 0 <= i < init.versions.len()
                        &&& (#[trigger] init.versions[i]).version == version
                        &&& init.versions[i].state == LoadState::WaitingForMetadata
                        &&& forall|j: int|
                            i < j < init.versions.len() ==> (#[trigger] init.versions[j]).state
                                != LoadState::WaitingForMetadata
                    };
                assert(load.versions[i] == init.versions[i]);
                assert forall|j: int| i < j < load.versions.len() implies (
                #[trigger] load.versions[j]).state != LoadState::WaitingForMetadata by {
                    if j < last {
                        assert(init.versions[j] == load.versions[j]);
                    }
                }
            } else {
                assert forall|i: int| 0 <= i < load.versions.len() implies (
                #[trigger] load.versions[i]).state != LoadState::WaitingForMetadata by {
                    if i < last {
                        assert(init.versions[i] == load.versions[i]);
                    }
                }
            }
        }
    }
}

/// Descriptions keep the handles of assets, and leave open the requests for assets that they are
/// not of.
proof fn lemma_describe_all_handles(
    s: LoaderView,
    list: Seq<MetadataView>,
    requests: Map<u128, (LoadHandle, u32)>,
    fresh: Map<u128, u64>,
)
    requires
        s.describe_all(list, requests, fresh) is Ok,
    ensures
        s.describe_all(list, requests, fresh) matches Ok((after, rest)) && {
            &&& part_of(s.by_uuid, after.by_uuid)
            &&& forall|other: u128| #[trigger]
                rest.contains_key(other) <==> requests.contains_key(other) && forall|j: int|
                    0 <= j < list.len() ==> (#[trigger] list[j]).asset_id.0 != other
            &&& forall|other: u128| #[trigger]
                rest.contains_key(other) ==> rest[other] == requests[other]
        },
    decreases list.len(),
{
    if list.len() > 0 {
        let init = list.drop_last();
        lemma_describe_all_handles(s, init, requests, fresh);
        let (mid, rest) = s.describe_all(init, requests, fresh)->Ok_0;
        let m = list.last();
        assert(list[list.len() - 1] == m);
        mid.lemma_describe_extends(m, rest.get(m.asset_id.0), fresh);
        let all = (s.describe_all(list, requests, fresh)->Ok_0).1;
        assert forall|other: u128| #[trigger] all.contains_key(other) <==> requests.contains_key(
            other,
        ) && forall|j: int| 0 <= j < list.len() ==> (#[trigger] list[j]).asset_id.0 != other by {
            if all.contains_key(other) {
                assert(rest.contains_key(other));
                assert forall|j: int| 0 <= j < list.len() implies (#[trigger] list[j]).asset_id.0
                    != other by {
                    if j < init.len() {
                        assert(init[j] == list[j]);
                    }
                }
            } else if requests.contains_key(other) && forall|j: int|
                0 <= j < list.len() ==> (#[trigger] list[j]).asset_id.0 != other {
                assert forall|j: int| 0 <= j < init.len() implies (#[trigger] init[j]).asset_id.0
                    != other by {
                    assert(init[j] == list[j]);
                }
                assert(rest.contains_key(other));
            }
        }
    }
}

/// Descriptions of other assets leave a load alone.
proof fn lemma_nothing_about(
    s: LoaderView,
    list: Seq<MetadataView>,
    requests: Map<u128, (LoadHandle, u32)>,
    fresh: Map<u128, u64>,
    key: u64,
    uuid: u128,
)
    requires
        s.describe_all(list, requests, fresh) is Ok,
        forall|i: int| 0 <= i < list.len() ==> (#[trigger] list[i]).asset_id.0 != uuid,
        forall|other: u128| #[trigger]
            requests.contains_key(other) && other != uuid ==> requests[other].0.0 != key,
        distinct_handles(fresh),
        s.by_uuid.contains_key(uuid),
        s.by_uuid[uuid] == key,
        part_of((s.describe_all(list, requests, fresh)->Ok_0).0.by_uuid, fresh),
        s.loads.contains_key(key),
    ensures
        (s.describe_all(list, requests, fresh)->Ok_0).0.loads.contains_key(key),
        (s.describe_all(list, requests, fresh)->Ok_0).0.loads[key] == s.loads[key],
    decreases list.len(),
{
    if list.len() > 0 {
        let init = list.drop_last();
        let m = list.last();
        assert(list[list.len() - 1] == m);
        let (mid, rest) = s.describe_all(init, requests, fresh)->Ok_0;
        let request = rest.get(m.asset_id.0);
        mid.lemma_describe_extends(m, request, fresh);
        let after = mid.describe(m, request, fresh)->Ok_0;
        assert(part_of(mid.by_uuid, fresh));
        assert forall|i: int| 0 <= i < init.len() implies (#[trigger] init[i]).asset_id.0
            != uuid by {
            assert(init[i] == list[i]);
        }
        lemma_nothing_about(s, init, requests, fresh, key, uuid);
        lemma_describe_all_handles(s, init, requests, fresh);
        assert(mid.by_uuid.contains_key(uuid) && fresh.contains_key(uuid) && fresh[uuid] == key);
        if request is None {
            assert(after.by_uuid.contains_key(m.asset_id.0));
            assert(fresh.contains_key(m.asset_id.0));
            assert(fresh[m.asset_id.0] != key);
        } else {
            assert(rest.contains_key(m.asset_id.0));
            assert(requests.contains_key(m.asset_id.0));
        }
    }
}

/// One description of an asset among those of others does to the load of the asset what it does
/// alone.
proof fn lemma_described_alone(
    s: LoaderView,
    list: Seq<MetadataView>,
    requests: Map<u128, (LoadHandle, u32)>,
    fresh: Map<u128, u64>,
    i: int,
    key: u64,
)
    requires
        s.describe_all(list, requests, fresh) is Ok,
        0 <= i < list.len(),
        forall|j: int|
            0 <= j < list.len() && j != i ==> (#[trigger] list[j]).asset_id != list[i].asset_id,
        forall|other: u128| #[trigger]
            requests.contains_key(other) && other != list[i].asset_id.0 ==> requests[other].0.0
                != key,
        requests.contains_key(list[i].asset_id.0) ==> requests[list[i].asset_id.0].0 == LoadHandle(
            key,
        ),
        distinct_handles(fresh),
        s.by_uuid.contains_key(list[i].asset_id.0),
        s.by_uuid[list[i].asset_id.0] == key,
        part_of((s.describe_all(list, requests, fresh)->Ok_0).0.by_uuid, fresh),
        s.loads.contains_key(key),
    ensures
        ({
            let after = (s.describe_all(list, requests, fresh)->Ok_0).0;
            &&& after.loads.contains_key(key)
            &&& s.describe(list[i], requests.get(list[i].asset_id.0), fresh) matches Ok(alone)
                && after.loads[key] == alone.loads[key]
        }),
    decreases list.len(),
{
    let init = list.drop_last();
    let m = list.last();
    let uuid = list[i].asset_id.0;
    assert(list[list.len() - 1] == m);
    let (mid, rest) = s.describe_all(init, requests, fresh)->Ok_0;
    let request = rest.get(m.asset_id.0);
    mid.lemma_describe_extends(m, request, fresh);
    let after = mid.describe(m, request, fresh)->Ok_0;
    assert(part_of(mid.by_uuid, fresh));
    lemma_describe_all_handles(s, init, requests, fresh);
    assert(mid.by_uuid.contains_key(uuid) && mid.by_uuid[uuid] == key);
    assert(fresh.contains_key(uuid) && fresh[uuid] == key);
    if i == list.len() - 1 {
        assert forall|j: int| 0 <= j < init.len() implies (#[trigger] init[j]).asset_id.0
            != uuid by {
            assert(init[j] == list[j]);
            if init[j].asset_id.0 == uuid {
                assert(list[j].asset_id == list[i].asset_id);
            }
        }
        lemma_nothing_about(s, init, requests, fresh, key, uuid);
        assert(rest.contains_key(uuid) <==> requests.contains_key(uuid));
        assert(request == requests.get(uuid));
    } else {
        assert(init[i] == list[i]);
        assert forall|j: int| 0 <= j < init.len() && j != i implies (
        #[trigger] init[j]).asset_id != init[i].asset_id by {
            assert(init[j] == list[j]);
        }
        lemma_described_alone(s, init, requests, fresh, i, key);
        assert(m.asset_id != list[i].asset_id);
        if request is None {
            assert(after.by_uuid.contains_key(m.asset_id.0));
            assert(fresh.contains_key(m.asset_id.0));
            assert(fresh[m.asset_id.0] != key);
        } else {
            assert(rest.contains_key(m.asset_id.0));
            assert(requests.contains_key(m.asset_id.0));
        }
    }
}

/// One open request of a load among those of others does to the load what it does alone.
proof fn lemma_requeued_alone(
    s: LoaderView,
    requests: Map<u128, (LoadHandle, u32)>,
    order: Seq<u128>,
    x: int,
    key: u64,
    v: int,
)
    requires
        s.requeue_all(requests, order) is Ok,
        s.loads.contains_key(key),
        0 <= x < order.len(),
        forall|y: int|
            0 <= y < order.len() && y != x ==> requests[#[trigger] order[y]].0.0 != key,
        0 <= v < s.loads[key].versions.len(),
        s.loads[key].numbered(),
        requests[order[x]] == (LoadHandle(key), s.loads[key].versions[v].version),
    ensures
        s.requeue_all(requests, order) matches Ok(after) && {
            &&& after.loads.contains_key(key)
            &&& after.loads[key] == (LoadView {
                versions: s.loads[key].versions.update(
                    v,
                    VersionView {
                        state: if s.loads[key].versions[v].state == LoadState::RequestingMetadata {
                            LoadState::WaitingForMetadata
                        } else {
                            s.loads[key].versions[v].state
                        },
                        ..s.loads[key].versions[v]
                    },
                ),
                ..s.loads[key]
            })
        },
    decreases order.len(),
{
    let init = order.drop_last();
    let number = VersionQuery::Number(s.loads[key].versions[v].version);
    assert(order[order.len() - 1] == order.last());
    if x == order.len() - 1 {
        assert forall|y: int| 0 <= y < init.len() implies requests[#[trigger] init[y]].0.0
            != key by {
            assert(init[y] == order[y]);
        }
        lemma_requeues_of_others(s, requests, init, key);
        assert forall|j: int| 0 <= j < v implies !number.accepts(
            #[trigger] s.loads[key].versions[j],
        ) by {
            assert(s.loads[key].versions[j].version < s.loads[key].versions[v].version);
        }
        assert(is_first(s.loads[key].versions, number, v));
        lemma_position_some(s.loads[key].versions, number, v);
        assert(s.loads[key].versions.update(v, s.loads[key].versions[v])
            =~= s.loads[key].versions);
    } else {
        assert(init[x] == order[x]);
        assert forall|y: int| 0 <= y < init.len() && y != x implies requests[
            #[trigger] init[y]].0.0 != key by {
            assert(init[y] == order[y]);
        }
        lemma_requeued_alone(s, requests, init, x, key, v);
        assert(requests[order[order.len() - 1]].0.0 != key);
    }
}

/// Making requests again keeps the handles, the loads and the failures.
proof fn lemma_requeues_keep(
    s: LoaderView,
    requests: Map<u128, (LoadHandle, u32)>,
    order: Seq<u128>,
)
    requires
        s.requeue_all(requests, order) is Ok,
    ensures
        (s.requeue_all(requests, order)->Ok_0).by_uuid == s.by_uuid,
        (s.requeue_all(requests, order)->Ok_0).failures == s.failures,
        (s.requeue_all(requests, order)->Ok_0).loads.dom() == s.loads.dom(),
    decreases order.len(),
{
    if order.len() > 0 {
        lemma_requeues_keep(s, requests, order.drop_last());
        let mid = s.requeue_all(requests, order.drop_last())->Ok_0;
        assert((s.requeue_all(requests, order)->Ok_0).loads.dom() =~= mid.loads.dom());
    }
}

} // verus!
