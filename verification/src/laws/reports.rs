//! What a report of the storage comes to, and how a version comes into use.

use vstd::prelude::*;
use crate::error::ErrorView;
use crate::ids::{AssetTypeId, LoadHandle};
use crate::load::{LoadState, LoadView, VersionQuery, VersionView};
use crate::load_ops::OpMessage;
use crate::metadata::MetadataView;
use crate::model::{LoaderView, Stop};
use crate::pass::{PassState, Stage};
use crate::storage::{IndirectionResolver, StorageCall};
use crate::load::{
    blocks_commit, first_blocking, is_first, is_first_blocking, lemma_position_none,
    lemma_position_some, position,
};
use crate::model::came_to;
use crate::laws::calls::{calls_for, lemma_calls_add_up, lemma_calls_of_one};
use crate::laws::processes::lemma_ops_of_others;

verus! {

impl LoadView {
    /// The version at place `i` is the one with a number, the storage has loaded it, and it has a
    /// type.
    pub open spec fn can_commit_at(self, i: int, version: u32) -> bool {
        &&& 0 <= i < self.versions.len()
        &&& self.versions[i].version == version
        &&& self.versions[i].state == LoadState::LoadingAsset || self.versions[i].state
            == LoadState::LoadedUncommitted
        &&& self.versions[i].asset_type is Some
    }

    /// Every version but the one at place `i` is in use.
    pub open spec fn others_in_use(self, i: int) -> bool {
        forall|j: int|
            0 <= j < self.versions.len() && j != i ==> (#[trigger] self.versions[j]).state
                == LoadState::Loaded
    }

    /// In a later state, the version at place `i` is in use, and every other version is to be
    /// unloaded; nothing else has changed.
    pub open spec fn came_into_use(self, i: int, after: LoadView) -> bool {
        &&& after.asset_id == self.asset_id
        &&& after.refs == self.refs
        &&& after.version_counter == self.version_counter
        &&& after.pending_reload == self.pending_reload
        &&& after.versions.len() == self.versions.len()
        &&& forall|j: int|
            0 <= j < self.versions.len() ==> #[trigger] after.versions[j] == (VersionView {
                state: if j == i {
                    LoadState::Loaded
                } else {
                    LoadState::UnloadRequested
                },
                ..self.versions[j]
            })
    }
}

/// A version can be committed exactly if the load has it, the storage has loaded it, it has a type,
/// and every other version is in use. Then it is in use, every other version is to be unloaded, and
/// the storage is told which version of which load, of which type.
pub proof fn law_commit_brings_version_into_use(
    load: LoadView,
    handle: LoadHandle,
    version: u32,
    i: int,
)
    requires
        load.numbered(),
        0 <= i < load.versions.len(),
        load.versions[i].version == version,
    ensures
        load.commit(handle, version) is Ok <==> load.can_commit_at(i, version)
            && load.others_in_use(i),
        load.commit(handle, version) matches Ok((after, call)) ==> {
            &&& load.came_into_use(i, after)
            &&& call == (StorageCall::Commit {
                asset_type: load.versions[i].asset_type->0,
                handle,
                version,
            })
        },
{
    lemma_only_number(load, version, i);
    lemma_blocking(load.versions, version);
    if load.others_in_use(i) {
        if let Some(j) = first_blocking(load.versions, version) {
            assert(blocks_commit(load.versions[j], version));
        }
    } else {
        let j = choose|j: int|
            0 <= j < load.versions.len() && j != i && (#[trigger] load.versions[j]).state
                != LoadState::Loaded;
        assert(load.versions[j].version != version) by {
            if i < j {
                assert(load.versions[i].version < load.versions[j].version);
            } else {
                assert(load.versions[j].version < load.versions[i].version);
            }
        }
        assert(blocks_commit(load.versions[j], version));
    }
    if let Ok((after, call)) = load.commit(handle, version) {
        assert forall|j: int| 0 <= j < load.versions.len() implies #[trigger] after.versions[j] == (
        VersionView {
            state: if j == i {
                LoadState::Loaded
            } else {
                LoadState::UnloadRequested
            },
            ..load.versions[j]
        }) by {
            if i < j {
                assert(load.versions[i].version < load.versions[j].version);
            } else if j < i {
                assert(load.versions[j].version < load.versions[i].version);
            }
        }
    }
}

/// Why a version cannot be committed: the load does not have it, or it is in another state than
/// being loaded or loaded, or it has no type, or another version is not in use, the first of which
/// is named.
pub proof fn law_refused_commit_says_why(
    load: LoadView,
    handle: LoadHandle,
    version: u32,
    i: int,
    j: int,
)
    requires
        load.numbered(),
    ensures
        (forall|x: int|
            0 <= x < load.versions.len() ==> (#[trigger] load.versions[x]).version != version)
            ==> load.commit(handle, version) == Err::<(LoadView, StorageCall), ErrorView>(
            ErrorView::MissingVersion(handle, version),
        ),
        0 <= i < load.versions.len() && load.versions[i].version == version && !(
        load.versions[i].state == LoadState::LoadingAsset || load.versions[i].state
            == LoadState::LoadedUncommitted) ==> load.commit(handle, version) == Err::<
            (LoadView, StorageCall),
            ErrorView,
        >(ErrorView::UnexpectedState(handle, version)),
        0 <= i < load.versions.len() && load.versions[i].version == version && (
        load.versions[i].state == LoadState::LoadingAsset || load.versions[i].state
            == LoadState::LoadedUncommitted) && load.versions[i].asset_type is None
            ==> load.commit(handle, version) == Err::<(LoadView, StorageCall), ErrorView>(
            ErrorView::MissingAssetType(handle, version),
        ),
        load.can_commit_at(i, version) && 0 <= j < load.versions.len() && j != i
            && load.versions[j].state != LoadState::Loaded && (forall|x: int|
            0 <= x < j && x != i ==> (#[trigger] load.versions[x]).state == LoadState::Loaded)
            ==> load.commit(handle, version) == Err::<(LoadView, StorageCall), ErrorView>(
            ErrorView::UnexpectedState(handle, load.versions[j].version),
        ),
{
    lemma_position_none(load.versions, VersionQuery::Number(version));
    if 0 <= i < load.versions.len() && load.versions[i].version == version {
        lemma_only_number(load, version, i);
        if load.can_commit_at(i, version) && 0 <= j < load.versions.len() && j != i
            && load.versions[j].state != LoadState::Loaded && (forall|x: int|
            0 <= x < j && x != i ==> (#[trigger] load.versions[x]).state == LoadState::Loaded) {
            if i < j {
                assert(load.versions[i].version < load.versions[j].version);
            } else {
                assert(load.versions[j].version < load.versions[i].version);
            }
            assert(is_first_blocking(load.versions, version, j));
            lemma_blocking(load.versions, version);
            let k = first_blocking(load.versions, version)->0;
            if k < j {
                assert(blocks_commit(load.versions[k], version));
            } else if j < k {
                assert(!blocks_commit(load.versions[j], version));
            }
        }
    }
}

/// When the storage reports that it has loaded a version, then a version that comes into use by
/// itself is committed, if every other one is in use; and one that does not is loaded and waits,
/// and the storage is not called.
pub proof fn law_loaded_version_is_committed_or_waits(
    s: LoaderView,
    handle: LoadHandle,
    version: u32,
    i: int,
)
    requires
        s.loads.contains_key(handle.0),
        s.loads[handle.0].numbered(),
        0 <= i < s.loads[handle.0].versions.len(),
        s.loads[handle.0].versions[i].version == version,
    ensures
        ({
            let load = s.loads[handle.0];
            let r = s.receive_op(OpMessage::Complete(handle, version));
            &&& load.versions[i].auto_commit ==> (r is Ok <==> load.can_commit_at(i, version)
                && load.others_in_use(i))
            &&& load.versions[i].auto_commit ==> (r matches Ok((after, calls)) ==> {
                &&& after.loads.contains_key(handle.0)
                &&& load.came_into_use(i, after.loads[handle.0])
                &&& after.loads =~= s.loads.insert(handle.0, after.loads[handle.0])
                &&& after == (LoaderView { loads: after.loads, ..s })
                &&& calls == seq![
                    StorageCall::Commit {
                        asset_type: load.versions[i].asset_type->0,
                        handle,
                        version,
                    },
                ]
            })
            &&& !load.versions[i].auto_commit ==> (r matches Ok((after, calls)) && {
                &&& calls.len() == 0
                &&& after == (LoaderView {
                    loads: s.loads.insert(
                        handle.0,
                        LoadView {
                            versions: load.versions.update(
                                i,
                                VersionView {
                                    state: LoadState::LoadedUncommitted,
                                    ..load.versions[i]
                                },
                            ),
                            ..load
                        },
                    ),
                    ..s
                })
            })
        }),
{
    let load = s.loads[handle.0];
    lemma_only_number(load, version, i);
    law_commit_brings_version_into_use(load, handle, version, i);
}

/// Any other report is an error, before any call to the storage: that the load failed, that the
/// operation was given up, or that there is no such load or no such version.
pub proof fn law_other_reports_are_errors(
    s: LoaderView,
    handle: LoadHandle,
    version: u32,
    text: Seq<char>,
)
    ensures
        s.receive_op(OpMessage::Error(handle, version, text)) == Err::<
            (LoaderView, Seq<StorageCall>),
            Stop,
        >(
            Stop {
                error: ErrorView::LoadFailed(handle, version, text),
                calls: Seq::empty(),
            },
        ),
        s.receive_op(OpMessage::Drop(handle, version)) == Err::<
            (LoaderView, Seq<StorageCall>),
            Stop,
        >(Stop { error: ErrorView::OpDropped(handle, version), calls: Seq::empty() }),
        !s.loads.contains_key(handle.0) ==> s.receive_op(OpMessage::Complete(handle, version))
            == Err::<(LoaderView, Seq<StorageCall>), Stop>(
            Stop { error: ErrorView::MissingLoad(handle), calls: Seq::empty() },
        ),
        s.loads.contains_key(handle.0) && (forall|x: int|
            0 <= x < s.loads[handle.0].versions.len() ==> (
            #[trigger] s.loads[handle.0].versions[x]).version != version) ==> s.receive_op(
            OpMessage::Complete(handle, version),
        ) == Err::<(LoaderView, Seq<StorageCall>), Stop>(
            Stop { error: ErrorView::MissingVersion(handle, version), calls: Seq::empty() },
        ),
{
    lemma_position_none(s.loads[handle.0].versions, VersionQuery::Number(version));
}

/// Reports are taken in one by one, and each has its effect: if one of them is about a load and no
/// other is, then it does to that load, and calls the storage for it, as if it had come alone.
pub proof fn law_each_report_has_its_effect(s: LoaderView, ops: Seq<OpMessage>, i: int)
    requires
        0 <= i < ops.len(),
        s.loads.contains_key(ops[i].handle().0),
        forall|j: int|
            0 <= j < ops.len() && j != i ==> (#[trigger] ops[j]).handle().0 != ops[i].handle().0,
        s.receive_all_ops(ops) is Ok,
    ensures
        s.receive_all_ops(ops) matches Ok((after, calls)) && {
            &&& after.loads.contains_key(ops[i].handle().0)
            &&& s.receive_op(ops[i]) matches Ok((alone, more)) && {
                &&& after.loads[ops[i].handle().0] == alone.loads[ops[i].handle().0]
                &&& calls_for(calls, ops[i].handle()) == more
            }
        },
    decreases ops.len(),
{
    let init = ops.drop_last();
    let key = ops[i].handle().0;
    let handle = ops[i].handle();
    let (mid, some) = s.receive_all_ops(init)->Ok_0;
    let (after, more) = mid.receive_op(ops.last())->Ok_0;
    lemma_calls_add_up(some, more, handle);
    assert(ops[ops.len() - 1] == ops.last());
    if i == ops.len() - 1 {
        assert forall|j: int| 0 <= j < init.len() implies (#[trigger] init[j]).handle().0
            != key by {
            assert(init[j] == ops[j]);
        }
        lemma_ops_of_others(s, init, key);
        lemma_report_is_local(s, mid, ops.last());
        lemma_calls_of_one(more, handle, handle);
        assert(Seq::<StorageCall>::empty() + more =~= more);
    } else {
        assert(init[i] == ops[i]);
        assert forall|j: int| 0 <= j < init.len() && j != i implies (
        #[trigger] init[j]).handle().0 != init[i].handle().0 by {
            assert(init[j] == ops[j]);
        }
        law_each_report_has_its_effect(s, init, i);
        assert(ops[ops.len() - 1].handle().0 != key);
        lemma_calls_of_one(more, ops.last().handle(), handle);
        assert(calls_for(some, handle) + Seq::<StorageCall>::empty() =~= calls_for(some, handle));
    }
}

/// What a report does to its load depends on that load alone.
proof fn lemma_report_is_local(s: LoaderView, t: LoaderView, op: OpMessage)
    requires
        s.loads.contains_key(op.handle().0),
        t.loads.contains_key(op.handle().0),
        s.loads[op.handle().0] == t.loads[op.handle().0],
        t.receive_op(op) is Ok,
    ensures
        s.receive_op(op) matches Ok((after, calls)) && {
            &&& after.loads[op.handle().0] == (t.receive_op(op)->Ok_0).0.loads[op.handle().0]
            &&& calls == (t.receive_op(op)->Ok_0).1
        },
{
}

/// In the stage of a pass that takes in reports, a load of which no report came stays as it is, and
/// the storage is not called for it.
pub proof fn law_load_without_report_stays<R: IndirectionResolver + ?Sized>(
    before: PassState,
    resolver: &R,
    after: PassState,
    key: u64,
)
    requires
        before.may_run(Stage::LoadOps, resolver, after, None),
        before.loader.loads.contains_key(key),
        forall|j: int|
            before.taken.ops.len() <= j < after.taken.ops.len() ==> (
            #[trigger] after.taken.ops[j]).handle().0 != key,
    ensures
        after.loader.loads.contains_key(key),
        after.loader.loads[key] == before.loader.loads[key],
        before.storage.len() <= after.storage.len(),
        calls_for(after.storage.skip(before.storage.len() as int), LoadHandle(key)).len() == 0,
{
    let s = before.loader;
    let ops = choose|ops: Seq<OpMessage>|
        {
            &&& came_to(
                #[trigger] s.receive_all_ops(ops),
                before.storage,
                after.storage,
                Ok(after.loader),
            )
            &&& after.taken == before.taken.with_ops(ops)
        };
    let n = before.taken.ops.len() as int;
    assert forall|j: int| 0 <= j < ops.len() implies (#[trigger] ops[j]).handle().0 != key by {
        assert(after.taken.ops[n + j] == ops[j]);
    }
    lemma_ops_of_others(s, ops, key);
    let calls = (s.receive_all_ops(ops)->Ok_0).1;
    assert(after.storage.skip(before.storage.len() as int) =~= calls);
}

/// In the stage of a pass that takes in reports, the one report about a load that says that a
/// version is loaded has its effect: a version that comes into use by itself is in use, and the
/// storage was told so once; any other one waits.
pub proof fn law_stage_takes_in_reports<R: IndirectionResolver + ?Sized>(
    before: PassState,
    resolver: &R,
    after: PassState,
    key: u64,
    i: int,
    v: int,
)
    requires
        before.loader.wf(),
        before.may_run(Stage::LoadOps, resolver, after, None),
        before.loader.loads.contains_key(key),
        before.loader.loads[key].numbered(),
        before.taken.ops.len() <= i < after.taken.ops.len(),
        forall|j: int|
            before.taken.ops.len() <= j < after.taken.ops.len() && j != i ==> (
            #[trigger] after.taken.ops[j]).handle().0 != key,
        0 <= v < before.loader.loads[key].versions.len(),
        after.taken.ops[i] == OpMessage::Complete(
            LoadHandle(key),
            before.loader.loads[key].versions[v].version,
        ),
    ensures
        ({
            let load = before.loader.loads[key];
            let made = calls_for(
                after.storage.skip(before.storage.len() as int),
                LoadHandle(key),
            );
            &&& after.loader.loads.contains_key(key)
            &&& before.storage.len() <= after.storage.len()
            &&& if load.versions[v].auto_commit {
                &&& load.came_into_use(v, after.loader.loads[key])
                &&& made == seq![
                    StorageCall::Commit {
                        asset_type: load.versions[v].asset_type->0,
                        handle: LoadHandle(key),
                        version: load.versions[v].version,
                    },
                ]
            } else {
                &&& made.len() == 0
                &&& after.loader.loads[key] == (LoadView {
                    versions: load.versions.update(
                        v,
                        VersionView { state: LoadState::LoadedUncommitted, ..load.versions[v] },
                    ),
                    ..load
                })
            }
        }),
{
    let s = before.loader;
    let handle = LoadHandle(key);
    let number = s.loads[key].versions[v].version;
    let ops = choose|ops: Seq<OpMessage>|
        {
            &&& came_to(
                #[trigger] s.receive_all_ops(ops),
                before.storage,
                after.storage,
                Ok(after.loader),
            )
            &&& after.taken == before.taken.with_ops(ops)
        };
    let n = before.taken.ops.len() as int;
    assert(after.taken.ops == before.taken.ops + ops);
    assert(ops[i - n] == after.taken.ops[i]);
    assert forall|j: int| 0 <= j < ops.len() && j != i - n implies (#[trigger] ops[j]).handle().0
        != ops[i - n].handle().0 by {
        assert(after.taken.ops[n + j] == ops[j]);
    }
    law_each_report_has_its_effect(s, ops, i - n);
    law_loaded_version_is_committed_or_waits(s, handle, number, v);
    let calls = (s.receive_all_ops(ops)->Ok_0).1;
    assert(after.storage.skip(before.storage.len() as int) =~= calls);
}

/// The stage of a pass that takes in reports takes in those that came, in their order, until one is
/// an error. Returned are these reports.
pub proof fn law_stage_takes_in_reports_in_order<R: IndirectionResolver + ?Sized>(
    before: PassState,
    resolver: &R,
    after: PassState,
    error: Option<ErrorView>,
) -> (ops: Seq<OpMessage>)
    requires
        before.may_run(Stage::LoadOps, resolver, after, error),
    ensures
        after.taken.ops == before.taken.ops + ops,
        match error {
            None => before.loader.receive_all_ops(ops) matches Ok((loader, calls)) && after.loader
                == loader && after.storage == before.storage + calls,
            Some(e) => before.loader.receive_all_ops(ops) matches Err(stop) && stop.error == e
                && after.storage == before.storage + stop.calls,
        },
{
    let out = match error {
        None => Ok(after.loader),
        Some(e) => Err(e),
    };
    choose|ops: Seq<OpMessage>|
        {
            &&& came_to(
                #[trigger] before.loader.receive_all_ops(ops),
                before.storage,
                after.storage,
                out,
            )
            &&& after.taken == before.taken.with_ops(ops)
        }
}

/// A version that was made for a description that nobody asked for comes into use by itself: once
/// the storage reports that it has loaded it, and every older version is in use, the storage is
/// told to commit it, it is in use, and the older versions are to be unloaded.
pub proof fn law_unasked_version_comes_into_use(
    s: LoaderView,
    uuid: u128,
    m: MetadataView,
    fresh: Map<u128, u64>,
    later: LoaderView,
    asset_type: AssetTypeId,
)
    requires
        s.wf(),
        s.by_uuid.contains_key(uuid),
        m.asset_id.0 == uuid,
        s.loads[s.by_uuid[uuid]].numbered(),
        s.loads[s.by_uuid[uuid]].version_counter < u32::MAX,
        forall|i: int|
            0 <= i < s.loads[s.by_uuid[uuid]].versions.len() ==> {
                &&& (#[trigger] s.loads[s.by_uuid[uuid]].versions[i]).state == LoadState::Loaded
                &&& s.loads[s.by_uuid[uuid]].versions[i].metadata is Some
            },
        s.describe(m, None, fresh) is Ok ==> ({
            let key = s.by_uuid[uuid];
            let described = s.describe(m, None, fresh)->Ok_0;
            let n = s.loads[key].versions.len() as int;
            &&& later.loads.contains_key(key)
            &&& later.loads[key] == (LoadView {
                refs: later.loads[key].refs,
                versions: described.loads[key].versions.update(
                    n,
                    VersionView {
                        state: LoadState::LoadingAsset,
                        asset_type: Some(asset_type),
                        ..described.loads[key].versions[n]
                    },
                ),
                ..described.loads[key]
            })
        }),
    ensures
        s.describe(m, None, fresh) is Ok,
        ({
            let key = s.by_uuid[uuid];
            let number = (s.loads[key].version_counter + 1) as u32;
            let n = s.loads[key].versions.len() as int;
            &&& later.loads[key].versions.len() == n + 1
            &&& later.loads[key].versions[n].version == number
            &&& later.loads[key].versions[n].metadata == Some(m)
            &&& later.receive_op(OpMessage::Complete(LoadHandle(key), number)) matches Ok(
                (after, calls),
            ) && {
                &&& calls == seq![
                    StorageCall::Commit { asset_type, handle: LoadHandle(key), version: number },
                ]
                &&& after.loads[key].versions[n].state == LoadState::Loaded
                &&& forall|i: int|
                    0 <= i < n ==> (#[trigger] after.loads[key].versions[i]).state
                        == LoadState::UnloadRequested
            }
        }),
{
    let key = s.by_uuid[uuid];
    let load = s.loads[key];
    assert(s.loads.contains_key(key));
    lemma_position_none(load.versions, VersionQuery::NoMetadata);
    let n = load.versions.len() as int;
    let number = (load.version_counter + 1) as u32;
    let described = s.describe(m, None, fresh)->Ok_0;
    assert(described.loads[key].versions.len() == n + 1);
    let late = later.loads[key];
    assert forall|i: int| 0 <= i < n implies #[trigger] late.versions[i] == load.versions[i] by {}
    assert(late.numbered());
    assert(late.others_in_use(n)) by {
        assert forall|j: int| 0 <= j < late.versions.len() && j != n implies (
        #[trigger] late.versions[j]).state == LoadState::Loaded by {
            assert(late.versions[j] == load.versions[j]);
        }
    }
    law_loaded_version_is_committed_or_waits(later, LoadHandle(key), number, n);
    let after = (later.receive_op(OpMessage::Complete(LoadHandle(key), number))->Ok_0).0;
    assert(after.loads[key].versions[n].state == LoadState::Loaded);
}

/// The version with a number is the only one with it.
pub proof fn lemma_only_number(load: LoadView, version: u32, i: int)
    requires
        load.numbered(),
        0 <= i < load.versions.len(),
        load.versions[i].version == version,
    ensures
        position(load.versions, VersionQuery::Number(version)) == Some(i),
{
    assert forall|j: int| 0 <= j < i implies !VersionQuery::Number(version).accepts(
        #[trigger] load.versions[j],
    ) by {
        assert(load.versions[j].version < load.versions[i].version);
    }
    assert(is_first(load.versions, VersionQuery::Number(version), i));
    lemma_position_some(load.versions, VersionQuery::Number(version), i);
}

/// A version stands in the way of a commit exactly if there is a first one.
proof fn lemma_blocking(versions: Seq<VersionView>, version: u32)
    ensures
        first_blocking(versions, version) is None <==> (forall|j: int|
            0 <= j < versions.len() ==> !blocks_commit(#[trigger] versions[j], version)),
        first_blocking(versions, version) matches Some(i) ==> is_first_blocking(
            versions,
            version,
            i,
        ),
{
    if first_blocking(versions, version) is None {
        assert forall|j: int| 0 <= j < versions.len() implies !blocks_commit(
            #[trigger] versions[j],
            version,
        ) by {
            if blocks_commit(versions[j], version) {
                lemma_first_blocking_exists(versions, version, j);
            }
        }
    } else {
        let i = choose|i: int| is_first_blocking(versions, version, i);
        assert(blocks_commit(versions[i], version));
    }
}

proof fn lemma_first_blocking_exists(versions: Seq<VersionView>, version: u32, j: int)
    requires
        0 <= j < versions.len(),
        blocks_commit(versions[j], version),
    ensures
        exists|i: int| is_first_blocking(versions, version, i),
    decreases j,
{
    if forall|k: int| 0 <= k < j ==> !blocks_commit(#[trigger] versions[k], version) {
        assert(is_first_blocking(versions, version, j));
    } else {
        let k = choose|k: int| 0 <= k < j && blocks_commit(#[trigger] versions[k], version);
        lemma_first_blocking_exists(versions, version, k);
    }
}

} // verus!
