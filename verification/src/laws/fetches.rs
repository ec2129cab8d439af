//! The data of assets and the candidates for identifiers: for what they are asked, and what they do
//! when they come.

use vstd::prelude::*;
use crossbeam_channel::Sender;
use crate::data_requests::{AssetLoadResult, DataMessage};
use crate::error::{ErrorView, FailureView};
use crate::ids::{AssetUuid, LoadHandle};
use crate::indirect::{IndirectHandleState, IndirectView};
use crate::io::IoCall;
use crate::load::{LoadState, LoadView, VersionQuery, VersionView};
use crate::messages::{ArtifactRequest, DataResponse, ResolveResponse};
use crate::model::{LoaderView, Stop};
use crate::pass::{PassState, Stage};
use crate::resolve_requests::ResolveMessage;
use crate::storage::{IndirectionResolver, StorageCall};
use crate::data_requests::data_messages;
use crate::load::{is_first, lemma_position_none, lemma_position_some, position};
use crate::resolve_requests::resolve_messages;
use crate::laws::calls::{calls_for, lemma_calls_add_up, lemma_calls_of_one};
use crate::laws::processes::lemma_data_calls_for_others;
use crate::laws::reports::lemma_only_number;

verus! {

/// Data that comes for a version is handed to the storage once, as it came, with the type that the
/// version's description gives. If the storage takes it, the version is being loaded under that
/// type; if not, the version needs its data as before, and the refusal is noted. Nothing else
/// changes.
pub proof fn law_data_is_handed_to_storage(
    s: LoaderView,
    handle: LoadHandle,
    version: u32,
    data: Seq<u8>,
    refusal: Option<Seq<char>>,
    i: int,
)
    requires
        s.loads.contains_key(handle.0),
        s.loads[handle.0].numbered(),
        0 <= i < s.loads[handle.0].versions.len(),
        s.loads[handle.0].versions[i].version == version,
        s.loads[handle.0].versions[i].metadata is Some,
    ensures
        ({
            let load = s.loads[handle.0];
            let v = load.versions[i];
            let asset_type = v.metadata->0.type_id;
            s.receive_data(DataMessage { data: Ok(data), handle, version }, refusal) matches Ok(
                (after, calls),
            ) && {
                &&& calls == seq![
                    StorageCall::Update { asset_type, data, handle, version, refusal },
                ]
                &&& after.loads == s.loads.insert(
                    handle.0,
                    LoadView {
                        versions: load.versions.update(
                            i,
                            match refusal {
                                None => VersionView {
                                    state: LoadState::LoadingAsset,
                                    asset_type: Some(asset_type),
                                    ..v
                                },
                                Some(_) => VersionView { state: LoadState::WaitingForData, ..v },
                            },
                        ),
                        ..load
                    },
                )
                &&& after.failures == (match refusal {
                    None => s.failures,
                    Some(text) => s.failures.push(FailureView::Update(handle, version, text)),
                })
                &&& after == (LoaderView { loads: after.loads, failures: after.failures, ..s })
            }
        }),
{
    lemma_only_number(s.loads[handle.0], version, i);
}

/// If the data of a version could not be fetched, the version needs its description anew, that is
/// noted, and the storage is not called. Nothing else changes.
pub proof fn law_failed_data_starts_over(
    s: LoaderView,
    handle: LoadHandle,
    version: u32,
    text: Seq<char>,
    refusal: Option<Seq<char>>,
    i: int,
)
    requires
        s.loads.contains_key(handle.0),
        s.loads[handle.0].numbered(),
        0 <= i < s.loads[handle.0].versions.len(),
        s.loads[handle.0].versions[i].version == version,
    ensures
        ({
            let load = s.loads[handle.0];
            s.receive_data(DataMessage { data: Err(text), handle, version }, refusal) matches Ok(
                (after, calls),
            ) && {
                &&& calls.len() == 0
                &&& after.loads == s.loads.insert(
                    handle.0,
                    LoadView {
                        versions: load.versions.update(
                            i,
                            VersionView { state: LoadState::WaitingForMetadata, ..load.versions[i] },
                        ),
                        ..load
                    },
                )
                &&& after.failures == s.failures.push(FailureView::Data(handle, version, text))
                &&& after == (LoaderView { loads: after.loads, failures: after.failures, ..s })
            }
        }),
{
    lemma_only_number(s.loads[handle.0], version, i);
}

/// A result takes effect on the version that it is for, and on no other: it changes the state, and
/// the type if it has one.
pub proof fn law_result_takes_effect_on_its_version(
    s: LoaderView,
    handle: LoadHandle,
    version: u32,
    result: AssetLoadResult,
    i: int,
)
    requires
        s.loads.contains_key(handle.0),
        s.loads[handle.0].numbered(),
        0 <= i < s.loads[handle.0].versions.len(),
        s.loads[handle.0].versions[i].version == version,
    ensures
        ({
            let load = s.loads[handle.0];
            let v = load.versions[i];
            s.apply_result(handle, version, result) matches Ok(after) && after == (LoaderView {
                loads: s.loads.insert(
                    handle.0,
                    LoadView {
                        versions: load.versions.update(
                            i,
                            VersionView {
                                state: result.new_state,
                                asset_type: if result.asset_type is Some {
                                    result.asset_type
                                } else {
                                    v.asset_type
                                },
                                ..v
                            },
                        ),
                        ..load
                    },
                ),
                ..s
            })
        }),
{
    lemma_only_number(s.loads[handle.0], version, i);
}

/// An answer with data is an error, before any call to the storage, exactly if there is no such
/// load or no such version, or if there is data for a version that has no description.
pub proof fn law_data_for_nothing_is_error(
    s: LoaderView,
    message: DataMessage,
    refusal: Option<Seq<char>>,
    i: int,
)
    ensures
        !s.loads.contains_key(message.handle.0) ==> s.receive_data(message, refusal) == Err::<
            (LoaderView, Seq<StorageCall>),
            Stop,
        >(Stop { error: ErrorView::MissingLoad(message.handle), calls: Seq::empty() }),
        s.loads.contains_key(message.handle.0) && (forall|x: int|
            0 <= x < s.loads[message.handle.0].versions.len() ==> (
            #[trigger] s.loads[message.handle.0].versions[x]).version != message.version)
            ==> s.receive_data(message, refusal) == Err::<(LoaderView, Seq<StorageCall>), Stop>(
            Stop {
                error: ErrorView::MissingVersion(message.handle, message.version),
                calls: Seq::empty(),
            },
        ),
        s.loads.contains_key(message.handle.0) && s.loads[message.handle.0].numbered() && 0 <= i
            < s.loads[message.handle.0].versions.len()
            && s.loads[message.handle.0].versions[i].version == message.version
            && s.loads[message.handle.0].versions[i].metadata is None && message.data is Ok
            ==> s.receive_data(message, refusal) == Err::<(LoaderView, Seq<StorageCall>), Stop>(
            Stop {
                error: ErrorView::MissingMetadata(message.handle, message.version),
                calls: Seq::empty(),
            },
        ),
{
    if s.loads.contains_key(message.handle.0) {
        let load = s.loads[message.handle.0];
        lemma_position_none(load.versions, VersionQuery::Number(message.version));
        if load.numbered() && 0 <= i < load.versions.len() && load.versions[i].version
            == message.version {
            lemma_only_number(load, message.version, i);
        }
    }
}

/// Answers with data are taken in one by one, and each has its effect: if one of them is for a load
/// and no other is, then it does to that load, and calls the storage for it, as if it had come
/// alone.
pub proof fn law_each_data_answer_has_its_effect(
    s: LoaderView,
    messages: Seq<(DataMessage, Option<Seq<char>>)>,
    i: int,
)
    requires
        0 <= i < messages.len(),
        s.loads.contains_key(messages[i].0.handle.0),
        forall|j: int|
            0 <= j < messages.len() && j != i ==> (#[trigger] messages[j]).0.handle.0
                != messages[i].0.handle.0,
        s.receive_all_data(messages) is Ok,
    ensures
        s.receive_all_data(messages) matches Ok((after, calls)) && {
            &&& after.loads.contains_key(messages[i].0.handle.0)
            &&& s.receive_data(messages[i].0, messages[i].1) matches Ok((alone, more)) && {
                &&& after.loads[messages[i].0.handle.0] == alone.loads[messages[i].0.handle.0]
                &&& calls_for(calls, messages[i].0.handle) == more
            }
        },
    decreases messages.len(),
{
    let init = messages.drop_last();
    let handle = messages[i].0.handle;
    let last = messages.last();
    let (mid, some) = s.receive_all_data(init)->Ok_0;
    let (after, more) = mid.receive_data(last.0, last.1)->Ok_0;
    lemma_calls_add_up(some, more, handle);
    assert(messages[messages.len() - 1] == last);
    if i == messages.len() - 1 {
        assert forall|j: int| 0 <= j < init.len() implies (#[trigger] init[j]).0.handle.0
            != handle.0 by {
            assert(init[j] == messages[j]);
        }
        lemma_data_calls_for_others(s, init, handle.0);
        lemma_data_is_local(s, mid, last.0, last.1);
        lemma_calls_of_one(more, handle, handle);
        assert(Seq::<StorageCall>::empty() + more =~= more);
    } else {
        assert(init[i] == messages[i]);
        assert forall|j: int| 0 <= j < init.len() && j != i implies (
        #[trigger] init[j]).0.handle.0 != init[i].0.handle.0 by {
            assert(init[j] == messages[j]);
        }
        law_each_data_answer_has_its_effect(s, init, i);
        assert(messages[messages.len() - 1].0.handle.0 != handle.0);
        lemma_calls_of_one(more, last.0.handle, handle);
        assert(calls_for(some, handle) + Seq::<StorageCall>::empty() =~= calls_for(some, handle));
    }
}

/// What an answer with data does to its load depends on that load alone.
proof fn lemma_data_is_local(
    s: LoaderView,
    t: LoaderView,
    message: DataMessage,
    refusal: Option<Seq<char>>,
)
    requires
        s.loads.contains_key(message.handle.0),
        t.loads.contains_key(message.handle.0),
        s.loads[message.handle.0] == t.loads[message.handle.0],
        t.receive_data(message, refusal) is Ok,
    ensures
        s.receive_data(message, refusal) matches Ok((after, calls)) && {
            &&& after.loads[message.handle.0] == (t.receive_data(
                message,
                refusal,
            )->Ok_0).0.loads[message.handle.0]
            &&& calls == (t.receive_data(message, refusal)->Ok_0).1
        },
{
}

impl LoadView {
    /// A request is for the data of the first version that waits for it: it names the asset, the
    /// build that the version's description gives, the load and the version.
    pub open spec fn needs_data(self, key: u64, request: ArtifactRequest) -> bool {
        exists|i: int|
            {
                &&& 0 <= i < self.versions.len()
                &&& (#[trigger] self.versions[i]).state == LoadState::WaitingForData
                &&& forall|j: int|
                    0 <= j < i ==> (#[trigger] self.versions[j]).state != LoadState::WaitingForData
                &&& self.versions[i].metadata is Some
                &&& request.artifact_id == self.versions[i].metadata->0.id
                &&& request.version == self.versions[i].version
                &&& request.asset_id == self.asset_id
                &&& request.handle == LoadHandle(key)
            }
    }
}

/// Once the answers that came are taken in, the loader asks for data exactly if some version of
/// some load waits for it. There is one request for each such load, for the first such version, and
/// none for any other load; and each answer comes to the loader. So nothing is asked for a version
/// that does not wait for its data. After that those versions wait for the answers, and nothing
/// else has changed. Returned are the answers that came, with why the storage refused the data if
/// it did, the state after taking them in, and the requests.
pub proof fn law_needed_data_is_requested<R: IndirectionResolver + ?Sized>(
    before: PassState,
    resolver: &R,
    after: PassState,
) -> (r: (
    Seq<(DataMessage, Option<Seq<char>>)>,
    LoaderView,
    Seq<(ArtifactRequest, Sender<DataResponse>)>,
))
    requires
        before.may_run(Stage::DataRequests, resolver, after, None),
    ensures
        after.taken.data.len() == before.taken.data.len() + r.0.len(),
        forall|x: int|
            0 <= x < r.0.len() ==> (#[trigger] r.0[x]).0 == after.taken.data[before.taken.data.len()
                + x],
        before.loader.receive_all_data(r.0) matches Ok((mid, calls)) && mid == r.1 && after.storage
            == before.storage + calls,
        after.io == (if r.2.len() == 0 {
            before.io
        } else {
            before.io.push(IoCall::Artifacts(r.2))
        }),
        forall|x: int|
            0 <= x < r.2.len() ==> {
                let key = (#[trigger] r.2[x]).0.handle.0;
                &&& r.1.loads.contains_key(key)
                &&& r.1.loads[key].needs_data(key, r.2[x].0)
                &&& before.links.hears_data(r.2[x].1)
            },
        forall|x: int, y: int|
            0 <= x < y < r.2.len() ==> (#[trigger] r.2[x]).0.handle != (#[trigger] r.2[y]).0.handle,
        forall|key: u64, i: int|
            #![trigger r.1.loads[key].versions[i]]
            r.1.loads.contains_key(key) && 0 <= i
                < r.1.loads[key].versions.len()
                && r.1.loads[key].versions[i].state == LoadState::WaitingForData
                ==> exists|x: int|
                0 <= x < r.2.len() && (#[trigger] r.2[x]).0.handle == LoadHandle(key),
        after.loader.loads.dom() == r.1.loads.dom(),
        after.loader == (LoaderView { loads: after.loader.loads, ..r.1 }),
        forall|key: u64|
            #![trigger after.loader.loads[key]]
            r.1.loads.contains_key(key) ==> {
                let load = r.1.loads[key];
                &&& after.loader.loads[key] == (LoadView {
                    versions: after.loader.loads[key].versions,
                    ..load
                })
                &&& after.loader.loads[key].versions.len() == load.versions.len()
                &&& forall|i: int|
                    0 <= i < load.versions.len() ==> (
                    #[trigger] after.loader.loads[key].versions[i]) == (VersionView {
                        state: if load.versions[i].state == LoadState::WaitingForData && (forall|
                            j: int,
                        |
                            0 <= j < i ==> (#[trigger] load.versions[j]).state
                                != LoadState::WaitingForData) {
                            LoadState::RequestingData
                        } else {
                            load.versions[i].state
                        },
                        ..load.versions[i]
                    })
            },
{
    let begun = before.loader;
    let messages = choose|messages: Seq<(DataMessage, Option<Seq<char>>)>|
        {
            &&& after.taken == before.taken.with_data(data_messages(messages))
            &&& #[trigger] begun.receive_all_data(messages) matches Ok((mid, calls)) && after.storage
                == before.storage + calls && mid.may_ask_data(
                before.links,
                before.io,
                after.io,
                after.loader,
            )
        };
    let s = (begun.receive_all_data(messages)->Ok_0).0;
    assert forall|x: int| 0 <= x < messages.len() implies (#[trigger] messages[x]).0
        == after.taken.data[before.taken.data.len() + x] by {
        assert(data_messages(messages)[x] == messages[x].0);
    }
    let keys = choose|keys: Seq<u64>|
        {
            &&& keys.no_duplicates()
            &&& keys.to_set() == s.loads.dom()
            &&& before.links.asked_artifacts(before.io, #[trigger] s.data_wanted(keys), after.io)
        };
    let wanted = s.data_wanted(keys);
    assert forall|x: int| 0 <= x < keys.len() implies s.loads.contains_key(#[trigger] keys[x]) by {
        assert(keys.to_set().contains(keys[x]));
    }
    assert(after.loader.loads.dom() =~= s.loads.dom());
    assert forall|x: int| 0 <= x < keys.len() implies s.loads[
        #[trigger] keys[x]].data_requested().wf() by {
        assert(after.loader.loads.contains_key(keys[x]));
    }
    lemma_data_wanted_each(s, keys);
    let r = if wanted.len() == 0 {
        Seq::empty()
    } else {
        choose|requests: Seq<(ArtifactRequest, Sender<DataResponse>)>|
            after.io == before.io.push(IoCall::Artifacts(requests))
                && #[trigger] before.links.asks_for_artifacts(requests, wanted)
    };
    assert(r.len() == wanted.len());
    assert forall|x: int| 0 <= x < r.len() implies (#[trigger] r[x]).0 == wanted[x] by {}
    assert forall|key: u64, i: int|
        #![trigger s.loads[key].versions[i]]
        s.loads.contains_key(key) && 0 <= i < s.loads[key].versions.len()
            && s.loads[key].versions[i].state == LoadState::WaitingForData implies exists|x: int|
        0 <= x < r.len() && (#[trigger] r[x]).0.handle == LoadHandle(key) by {
        assert(keys.to_set().contains(key));
        let k = choose|k: int| 0 <= k < keys.len() && keys[k] == key;
        lemma_position_none(
            s.loads[key].versions,
            VersionQuery::InState(LoadState::WaitingForData),
        );
        assert(s.loads[keys[k]].data_wanted(LoadHandle(keys[k])) is Some);
        let x = choose|x: int|
            0 <= x < wanted.len() && (#[trigger] wanted[x]).handle == LoadHandle(keys[k]);
        assert(r[x].0 == wanted[x]);
    }
    assert forall|key: u64|
        #![trigger after.loader.loads[key]]
        s.loads.contains_key(key) implies {
        let load = s.loads[key];
        &&& after.loader.loads[key] == (LoadView {
            versions: after.loader.loads[key].versions,
            ..load
        })
        &&& after.loader.loads[key].versions.len() == load.versions.len()
        &&& forall|i: int|
            0 <= i < load.versions.len() ==> (#[trigger] after.loader.loads[key].versions[i]) == (
            VersionView {
                state: if load.versions[i].state == LoadState::WaitingForData && (forall|j: int|
                    0 <= j < i ==> (#[trigger] load.versions[j]).state
                        != LoadState::WaitingForData) {
                    LoadState::RequestingData
                } else {
                    load.versions[i].state
                },
                ..load.versions[i]
            })
    } by {
        lemma_data_requested_first(s.loads[key]);
        assert(after.loader.loads[key] == s.loads[key].data_requested());
    }
    let out = (messages, s, r);
    assert forall|key: u64, i: int|
        #![trigger out.1.loads[key].versions[i]]
        out.1.loads.contains_key(key) && 0 <= i < out.1.loads[key].versions.len()
            && out.1.loads[key].versions[i].state == LoadState::WaitingForData implies exists|
        x: int,
    |
        0 <= x < out.2.len() && (#[trigger] out.2[x]).0.handle == LoadHandle(key) by {
        assert(s.loads.contains_key(key));
        assert(s.loads[key].versions[i].state == LoadState::WaitingForData);
        let x = choose|x: int| 0 <= x < r.len() && (#[trigger] r[x]).0.handle == LoadHandle(key);
        assert(0 <= x < r.len());
        assert(out.2[x].0.handle == LoadHandle(key));
    }
    out
}

/// Asking for the data of a load changes the state of the first version that waits for it.
pub proof fn lemma_data_requested_first(load: LoadView)
    ensures
        load.data_requested() == (LoadView { versions: load.data_requested().versions, ..load }),
        load.data_requested().versions.len() == load.versions.len(),
        forall|i: int|
            0 <= i < load.versions.len() ==> (#[trigger] load.data_requested().versions[i]) == (
            VersionView {
                state: if load.versions[i].state == LoadState::WaitingForData && (forall|j: int|
                    0 <= j < i ==> (#[trigger] load.versions[j]).state
                        != LoadState::WaitingForData) {
                    LoadState::RequestingData
                } else {
                    load.versions[i].state
                },
                ..load.versions[i]
            }),
{
    let waiting = VersionQuery::InState(LoadState::WaitingForData);
    lemma_position_none(load.versions, waiting);
    assert forall|i: int| 0 <= i < load.versions.len() implies (
    #[trigger] load.data_requested().versions[i]) == (VersionView {
        state: if load.versions[i].state == LoadState::WaitingForData && (forall|j: int|
            0 <= j < i ==> (#[trigger] load.versions[j]).state != LoadState::WaitingForData) {
            LoadState::RequestingData
        } else {
            load.versions[i].state
        },
        ..load.versions[i]
    }) by {
        if load.versions[i].state == LoadState::WaitingForData && (forall|j: int|
            0 <= j < i ==> (#[trigger] load.versions[j]).state != LoadState::WaitingForData) {
            assert(is_first(load.versions, waiting, i));
            lemma_position_some(load.versions, waiting, i);
        }
    }
}

/// The data that is needed is that of each load that needs some, once.
proof fn lemma_data_wanted_each(s: LoaderView, keys: Seq<u64>)
    requires
        keys.no_duplicates(),
        forall|x: int| 0 <= x < keys.len() ==> s.loads[#[trigger] keys[x]].data_requested().wf(),
    ensures
        forall|x: int|
            0 <= x < s.data_wanted(keys).len() ==> {
                let key = (#[trigger] s.data_wanted(keys)[x]).handle.0;
                keys.contains(key) && s.loads[key].needs_data(key, s.data_wanted(keys)[x])
            },
        forall|x: int, y: int|
            0 <= x < y < s.data_wanted(keys).len() ==> (#[trigger] s.data_wanted(keys)[x]).handle
                != (#[trigger] s.data_wanted(keys)[y]).handle,
        forall|k: int|
            0 <= k < keys.len() && s.loads[#[trigger] keys[k]].data_wanted(
                LoadHandle(keys[k]),
            ) is Some ==> exists|x: int|
                0 <= x < s.data_wanted(keys).len() && (#[trigger] s.data_wanted(keys)[x]).handle
                    == LoadHandle(keys[k]),
    decreases keys.len(),
{
    if keys.len() > 0 {
        let init = keys.drop_last();
        let key = keys.last();
        assert(keys[keys.len() - 1] == key);
        assert forall|x: int| 0 <= x < init.len() implies s.loads[
            #[trigger] init[x]].data_requested().wf() by {
            assert(init[x] == keys[x]);
        }
        lemma_data_wanted_each(s, init);
        let few = s.data_wanted(init);
        let all = s.data_wanted(keys);
        let load = s.loads[key];
        let waiting = VersionQuery::InState(LoadState::WaitingForData);
        lemma_position_none(load.versions, waiting);
        assert forall|x: int| 0 <= x < all.len() implies {
            let k = (#[trigger] all[x]).handle.0;
            keys.contains(k) && s.loads[k].needs_data(k, all[x])
        } by {
            if x < few.len() {
                assert(all[x] == few[x]);
                assert(init.contains(few[x].handle.0));
                let j = choose|j: int| 0 <= j < init.len() && init[j] == few[x].handle.0;
                assert(keys[j] == few[x].handle.0);
            } else {
                let i = position(load.versions, waiting)->0;
                assert(is_first(load.versions, waiting, i));
                assert(load.data_requested().wf());
                assert(load.data_requested().versions[i].wf());
                assert forall|j: int| 0 <= j < i implies (#[trigger] load.versions[j]).state
                    != LoadState::WaitingForData by {
                    assert(!waiting.accepts(load.versions[j]));
                }
                assert(load.versions[i].state == LoadState::WaitingForData);
                assert(load.needs_data(key, all[x]));
                assert(keys.contains(key));
            }
        }
        assert forall|x: int, y: int| 0 <= x < y < all.len() implies (#[trigger] all[x]).handle != (
        #[trigger] all[y]).handle by {
            assert(all[x] == few[x]);
            if y < few.len() {
                assert(all[y] == few[y]);
            } else {
                assert(init.contains(few[x].handle.0));
                let j = choose|j: int| 0 <= j < init.len() && init[j] == few[x].handle.0;
                assert(keys[j] != keys[keys.len() - 1]);
            }
        }
        assert forall|k: int|
            0 <= k < keys.len() && s.loads[#[trigger] keys[k]].data_wanted(
                LoadHandle(keys[k]),
            ) is Some implies exists|x: int|
            0 <= x < all.len() && (#[trigger] all[x]).handle == LoadHandle(keys[k]) by {
            if k < init.len() {
                assert(init[k] == keys[k]);
                let x = choose|x: int|
                    0 <= x < few.len() && (#[trigger] few[x]).handle == LoadHandle(init[k]);
                assert(all[x] == few[x]);
            } else {
                assert(all[all.len() - 1].handle == LoadHandle(key));
            }
        }
    }
}

/// An identifier that is held and with which nothing goes on needs its candidates, and so does one
/// that is bound and is to be bound anew; every other one stays as it is. Nothing else changes.
pub proof fn law_identifiers_are_taken_further<R: IndirectionResolver + ?Sized>(
    before: PassState,
    resolver: &R,
    after: PassState,
    key: u64,
)
    requires
        before.may_run(Stage::IndirectStates, resolver, after, None),
        before.loader.indirects.contains_key(key),
    ensures
        after.loader.indirects.dom() == before.loader.indirects.dom(),
        after.loader == (LoaderView { indirects: after.loader.indirects, ..before.loader }),
        after.storage == before.storage,
        after.io == before.io,
        ({
            let was = before.loader.indirects[key];
            let restarts = was.state == IndirectHandleState::Resolved && was.pending_reresolve;
            after.loader.indirects[key] == (IndirectView {
                state: if restarts || was.state == IndirectHandleState::Idle && was.refs > 0 {
                    IndirectHandleState::WaitingForMetadata
                } else {
                    was.state
                },
                pending_reresolve: was.pending_reresolve && !restarts,
                ..was
            })
        }),
{
    assert(after.loader.indirects.dom() =~= before.loader.indirects.dom());
}

/// Once the answers that came are taken in, the loader asks for candidates exactly if some
/// identifier needs them. There is one request for each such identifier, under its handle, and none
/// for any other; and each answer comes to the loader. After that those identifiers wait for the
/// answers, and nothing else has changed. Returned are the answers that came, with what the
/// resolver chose, the state after taking them in, and the requests.
pub proof fn law_needed_candidates_are_requested<R: IndirectionResolver + ?Sized>(
    before: PassState,
    resolver: &R,
    after: PassState,
) -> (r: (
    Seq<(ResolveMessage, Option<AssetUuid>)>,
    LoaderView,
    Seq<(((Seq<char>, Option<u128>), LoadHandle), Sender<ResolveResponse>)>,
))
    requires
        before.may_run(Stage::ResolveRequests, resolver, after, None),
    ensures
        after.storage == before.storage,
        after.taken.resolve.len() == before.taken.resolve.len() + r.0.len(),
        forall|x: int|
            0 <= x < r.0.len() ==> (#[trigger] r.0[x]).0
                == after.taken.resolve[before.taken.resolve.len() + x],
        before.loader.may_receive_all_candidates(resolver, r.0, Ok(r.1)),
        after.io == (if r.2.len() == 0 {
            before.io
        } else {
            before.io.push(IoCall::Candidates(r.2))
        }),
        forall|x: int|
            0 <= x < r.2.len() ==> {
                let key = (#[trigger] r.2[x]).0.1.0;
                &&& r.1.indirects.contains_key(key)
                &&& r.1.indirects[key].state == IndirectHandleState::WaitingForMetadata
                &&& r.2[x].0.0 == r.1.indirects[key].id
                &&& before.links.hears_resolve(r.2[x].1)
            },
        forall|x: int, y: int|
            0 <= x < y < r.2.len() ==> (#[trigger] r.2[x]).0.1 != (#[trigger] r.2[y]).0.1,
        forall|key: u64| #[trigger]
            r.1.indirects.contains_key(key) && r.1.indirects[key].state
                == IndirectHandleState::WaitingForMetadata ==> exists|x: int|
                0 <= x < r.2.len() && (#[trigger] r.2[x]).0.1 == LoadHandle(key),
        after.loader.indirects.dom() == r.1.indirects.dom(),
        after.loader == (LoaderView { indirects: after.loader.indirects, ..r.1 }),
        forall|key: u64|
            #![trigger after.loader.indirects[key]]
            r.1.indirects.contains_key(key) ==> after.loader.indirects[key] == (
            IndirectView {
                state: if r.1.indirects[key].state
                    == IndirectHandleState::WaitingForMetadata {
                    IndirectHandleState::RequestingMetadata
                } else {
                    r.1.indirects[key].state
                },
                ..r.1.indirects[key]
            }),
{
    let begun = before.loader;
    let (messages, received) = choose|
        messages: Seq<(ResolveMessage, Option<AssetUuid>)>,
        received: Result<LoaderView, ErrorView>,
    |
        {
            &&& #[trigger] begun.may_receive_all_candidates(resolver, messages, received)
            &&& after.taken == before.taken.with_resolve(resolve_messages(messages))
            &&& received matches Ok(mid) && mid.may_ask_candidates(
                before.links,
                before.io,
                after.io,
                after.loader,
            )
        };
    let s = received->Ok_0;
    assert forall|x: int| 0 <= x < messages.len() implies (#[trigger] messages[x]).0
        == after.taken.resolve[before.taken.resolve.len() + x] by {
        assert(resolve_messages(messages)[x] == messages[x].0);
    }
    let keys = choose|keys: Seq<u64>|
        {
            &&& keys.no_duplicates()
            &&& keys.to_set() == s.indirects.dom()
            &&& before.links.asked_candidates(
                before.io,
                #[trigger] s.candidates_wanted(keys),
                after.io,
            )
        };
    let wanted = s.candidates_wanted(keys);
    lemma_candidates_wanted_each(s, keys);
    let r = if wanted.len() == 0 {
        Seq::empty()
    } else {
        choose|requests: Seq<(((Seq<char>, Option<u128>), LoadHandle), Sender<ResolveResponse>)>|
            after.io == before.io.push(IoCall::Candidates(requests))
                && #[trigger] before.links.asks_for_candidates(requests, wanted)
    };
    assert(r.len() == wanted.len());
    assert forall|x: int| 0 <= x < r.len() implies (#[trigger] r[x]).0 == wanted[x] by {}
    assert forall|x: int| 0 <= x < r.len() implies s.indirects.contains_key(
        (#[trigger] r[x]).0.1.0,
    ) by {
        assert(keys.contains(wanted[x].1.0));
        assert(keys.to_set().contains(wanted[x].1.0));
    }
    assert forall|key: u64| #[trigger]
        s.indirects.contains_key(key) && s.indirects[key].state
            == IndirectHandleState::WaitingForMetadata implies exists|x: int|
        0 <= x < r.len() && (#[trigger] r[x]).0.1 == LoadHandle(key) by {
        assert(keys.to_set().contains(key));
        let k = choose|k: int| 0 <= k < keys.len() && keys[k] == key;
        assert(s.indirects[keys[k]].state is WaitingForMetadata);
        let x = choose|x: int|
            0 <= x < wanted.len() && (#[trigger] wanted[x]).1 == LoadHandle(keys[k]);
        assert(r[x].0 == wanted[x]);
    }
    assert(after.loader.indirects.dom() =~= s.indirects.dom());
    (messages, s, r)
}

/// The candidates that are needed are those of each identifier that needs them, once.
proof fn lemma_candidates_wanted_each(s: LoaderView, keys: Seq<u64>)
    requires
        keys.no_duplicates(),
    ensures
        forall|x: int|
            0 <= x < s.candidates_wanted(keys).len() ==> {
                let key = (#[trigger] s.candidates_wanted(keys)[x]).1.0;
                &&& keys.contains(key)
                &&& s.indirects[key].state is WaitingForMetadata
                &&& s.candidates_wanted(keys)[x].0 == s.indirects[key].id
            },
        forall|x: int, y: int|
            0 <= x < y < s.candidates_wanted(keys).len() ==> (
            #[trigger] s.candidates_wanted(keys)[x]).1 != (
            #[trigger] s.candidates_wanted(keys)[y]).1,
        forall|k: int|
            0 <= k < keys.len() && s.indirects[#[trigger] keys[k]].state is WaitingForMetadata
                ==> exists|x: int|
                0 <= x < s.candidates_wanted(keys).len() && (
                #[trigger] s.candidates_wanted(keys)[x]).1 == LoadHandle(keys[k]),
    decreases keys.len(),
{
    if keys.len() > 0 {
        let init = keys.drop_last();
        let key = keys.last();
        assert(keys[keys.len() - 1] == key);
        lemma_candidates_wanted_each(s, init);
        let few = s.candidates_wanted(init);
        let all = s.candidates_wanted(keys);
        assert forall|x: int| 0 <= x < all.len() implies {
            let k = (#[trigger] all[x]).1.0;
            &&& keys.contains(k)
            &&& s.indirects[k].state is WaitingForMetadata
            &&& all[x].0 == s.indirects[k].id
        } by {
            if x < few.len() {
                assert(all[x] == few[x]);
                assert(init.contains(few[x].1.0));
                let j = choose|j: int| 0 <= j < init.len() && init[j] == few[x].1.0;
                assert(keys[j] == few[x].1.0);
            } else {
                assert(keys.contains(key));
            }
        }
        assert forall|x: int, y: int| 0 <= x < y < all.len() implies (#[trigger] all[x]).1 != (
        #[trigger] all[y]).1 by {
            assert(all[x] == few[x]);
            if y < few.len() {
                assert(all[y] == few[y]);
            } else {
                assert(init.contains(few[x].1.0));
                let j = choose|j: int| 0 <= j < init.len() && init[j] == few[x].1.0;
                assert(keys[j] != keys[keys.len() - 1]);
            }
        }
        assert forall|k: int|
            0 <= k < keys.len() && s.indirects[
                #[trigger] keys[k]].state is WaitingForMetadata implies exists|x: int|
            0 <= x < all.len() && (#[trigger] all[x]).1 == LoadHandle(keys[k]) by {
            if k < init.len() {
                assert(init[k] == keys[k]);
                let x = choose|x: int|
                    0 <= x < few.len() && (#[trigger] few[x]).1 == LoadHandle(init[k]);
                assert(all[x] == few[x]);
            } else {
                assert(all[all.len() - 1].1 == LoadHandle(key));
            }
        }
    }
}

impl LoaderView {
    /// Every asset to which an identifier is bound has a handle.
    pub open spec fn bound_are_known(self) -> bool {
        forall|key: u64| #[trigger]
            self.indirects.contains_key(key) ==> (self.indirects[key].resolved_uuid matches Some(
                uuid,
            ) ==> self.by_uuid.contains_key(uuid.0))
    }
}

/// Answers about identifiers are taken in one by one, and each has its effect: if one of them is
/// for an identifier and no other is, then that identifier is bound to what the resolver chose from
/// the candidates that came for it, and the table has the load of that asset for it, or nothing if
/// the resolver chose none. If there were no candidates, it stays bound as it was, and starts over.
/// It is held as often as before. The handles of assets are direct.
pub proof fn law_each_candidates_answer_has_its_effect<R: IndirectionResolver + ?Sized>(
    s: LoaderView,
    resolver: &R,
    messages: Seq<(ResolveMessage, Option<AssetUuid>)>,
    after: LoaderView,
    i: int,
)
    requires
        s.bound_are_known(),
        s.may_receive_all_candidates(resolver, messages, Ok(after)),
        0 <= i < messages.len(),
        s.indirects.contains_key(messages[i].0.handle.0),
        forall|j: int|
            0 <= j < messages.len() && j != i ==> (#[trigger] messages[j]).0.handle.0
                != messages[i].0.handle.0,
        forall|u: u128| #[trigger]
            after.by_uuid.contains_key(u) ==> after.by_uuid[u] < 0x8000_0000_0000_0000u64,
    ensures
        ({
            let key = messages[i].0.handle.0;
            let choice = messages[i].1;
            &&& after.indirects.contains_key(key)
            &&& match messages[i].0.candidates {
                Ok(candidates) => {
                    &&& resolver.may_resolve(messages[i].0.id, candidates, choice)
                    &&& after.indirects[key] == (IndirectView {
                        resolved_uuid: choice,
                        state: IndirectHandleState::Resolved,
                        ..s.indirects[key]
                    })
                    &&& match choice {
                        Some(uuid) => {
                            &&& after.by_uuid.contains_key(uuid.0)
                            &&& after.table.contains_key(key)
                            &&& after.table[key] == after.by_uuid[uuid.0]
                        },
                        None => !after.table.contains_key(key),
                    }
                },
                Err(_) => {
                    &&& after.indirects[key] == (IndirectView {
                        state: IndirectHandleState::Idle,
                        ..s.indirects[key]
                    })
                    &&& after.table.contains_key(key) == s.table.contains_key(key)
                    &&& after.table[key] == s.table[key]
                },
            }
        }),
    decreases messages.len(),
{
    let init = messages.drop_last();
    let (message, choice) = messages.last();
    let key = messages[i].0.handle.0;
    assert(messages[messages.len() - 1] == messages.last());
    let (mid, fresh) = choose|mid: LoaderView, fresh: Map<u128, u64>|
        {
            &&& s.may_receive_all_candidates(resolver, init, Ok(mid))
            &&& Ok::<LoaderView, ErrorView>(after) == #[trigger] mid.receive_candidates(
                message,
                choice,
                fresh,
            )
            &&& message.allows(resolver, choice)
            &&& fresh == after.by_uuid && after.extends(mid)
        };
    assert forall|u: u128| #[trigger] mid.by_uuid.contains_key(u) implies mid.by_uuid[u]
        < 0x8000_0000_0000_0000u64 by {
        assert(after.by_uuid.contains_key(u));
    }
    lemma_candidates_keep_bound(s, resolver, init, mid);
    let indirect = mid.indirects[message.handle.0];
    if let Some(from) = indirect.resolved_uuid {
        assert(mid.by_uuid.contains_key(from.0));
        mid.lemma_remove_direct(LoadHandle(mid.by_uuid[from.0]), indirect.refs);
    }
    if i == messages.len() - 1 {
        assert forall|j: int| 0 <= j < init.len() implies (#[trigger] init[j]).0.handle.0
            != key by {
            assert(init[j] == messages[j]);
        }
        lemma_candidates_of_others(s, resolver, init, mid, key);
    } else {
        assert(init[i] == messages[i]);
        assert forall|j: int| 0 <= j < init.len() && j != i implies (
        #[trigger] init[j]).0.handle.0 != init[i].0.handle.0 by {
            assert(init[j] == messages[j]);
        }
        law_each_candidates_answer_has_its_effect(s, resolver, init, mid, i);
        assert(messages[messages.len() - 1].0.handle.0 != key);
    }
}

/// Answers about identifiers bind them to assets that have handles.
proof fn lemma_candidates_keep_bound<R: IndirectionResolver + ?Sized>(
    s: LoaderView,
    resolver: &R,
    messages: Seq<(ResolveMessage, Option<AssetUuid>)>,
    after: LoaderView,
)
    requires
        s.bound_are_known(),
        s.may_receive_all_candidates(resolver, messages, Ok(after)),
    ensures
        after.bound_are_known(),
    decreases messages.len(),
{
    if messages.len() > 0 {
        let init = messages.drop_last();
        let (message, choice) = messages.last();
        let (mid, fresh) = choose|mid: LoaderView, fresh: Map<u128, u64>|
            {
                &&& s.may_receive_all_candidates(resolver, init, Ok(mid))
                &&& Ok::<LoaderView, ErrorView>(after) == #[trigger] mid.receive_candidates(
                    message,
                    choice,
                    fresh,
                )
                &&& fresh == after.by_uuid && after.extends(mid)
            };
        lemma_candidates_keep_bound(s, resolver, init, mid);
        let indirect = mid.indirects[message.handle.0];
        if let Some(from) = indirect.resolved_uuid {
            mid.lemma_remove_chain_keeps(
                LoadHandle(mid.by_uuid[from.0]),
                indirect.refs,
                mid.indirects.dom().len() + 1,
            );
        }
        assert forall|key: u64| #[trigger] after.indirects.contains_key(key) implies (
        after.indirects[key].resolved_uuid matches Some(uuid) ==> after.by_uuid.contains_key(
            uuid.0,
        )) by {
            if key != message.handle.0 {
                assert(mid.indirects.contains_key(key));
            }
        }
    }
}

/// Answers about other identifiers leave an identifier as it is.
proof fn lemma_candidates_of_others<R: IndirectionResolver + ?Sized>(
    s: LoaderView,
    resolver: &R,
    messages: Seq<(ResolveMessage, Option<AssetUuid>)>,
    after: LoaderView,
    key: u64,
)
    requires
        s.bound_are_known(),
        s.may_receive_all_candidates(resolver, messages, Ok(after)),
        s.indirects.contains_key(key),
        forall|j: int|
            0 <= j < messages.len() ==> (#[trigger] messages[j]).0.handle.0 != key,
        forall|u: u128| #[trigger]
            after.by_uuid.contains_key(u) ==> after.by_uuid[u] < 0x8000_0000_0000_0000u64,
    ensures
        after.indirects.contains_key(key),
        after.indirects[key] == s.indirects[key],
        after.table.contains_key(key) == s.table.contains_key(key),
        after.table[key] == s.table[key],
    decreases messages.len(),
{
    if messages.len() > 0 {
        let init = messages.drop_last();
        let (message, choice) = messages.last();
        assert(messages[messages.len() - 1] == messages.last());
        let (mid, fresh) = choose|mid: LoaderView, fresh: Map<u128, u64>|
            {
                &&& s.may_receive_all_candidates(resolver, init, Ok(mid))
                &&& Ok::<LoaderView, ErrorView>(after) == #[trigger] mid.receive_candidates(
                    message,
                    choice,
                    fresh,
                )
                &&& fresh == after.by_uuid && after.extends(mid)
            };
        assert forall|u: u128| #[trigger] mid.by_uuid.contains_key(u) implies mid.by_uuid[u]
            < 0x8000_0000_0000_0000u64 by {
            assert(after.by_uuid.contains_key(u));
        }
        assert forall|j: int| 0 <= j < init.len() implies (#[trigger] init[j]).0.handle.0
            != key by {
            assert(init[j] == messages[j]);
        }
        lemma_candidates_of_others(s, resolver, init, mid, key);
        lemma_candidates_keep_bound(s, resolver, init, mid);
        let indirect = mid.indirects[message.handle.0];
        if let Some(from) = indirect.resolved_uuid {
            assert(mid.by_uuid.contains_key(from.0));
            mid.lemma_remove_direct(LoadHandle(mid.by_uuid[from.0]), indirect.refs);
        }
    }
}

} // verus!
