//! What each stage of a pass takes in, what it leaves alone, and when it fails.

use vstd::prelude::*;
use crate::error::ErrorView;
use crate::ids::{AssetUuid, LoadHandle, RefView};
use crate::load::{LoadState, VersionQuery, VersionView};
use crate::metadata::MetadataView;
use crate::model::{LoaderView, Stop};
use crate::pass::{PassState, Stage};
use crate::resolve_requests::ResolveMessage;
use crate::storage::{IndirectionResolver, StorageCall};
use crate::load::{lemma_position_none, newest};
use crate::laws::views::law_mark_is_highest_bit;

verus! {

/// A stage takes messages out of its own channel only, behind those that were taken before; only
/// looking for changed assets, reports, the versions and data lead to calls of the storage, and
/// only metadata, candidates and data are asked for. What a loader is tied to stays so.
pub proof fn law_stage_keeps_to_its_own<R: IndirectionResolver + ?Sized>(
    before: PassState,
    stage: Stage,
    resolver: &R,
    after: PassState,
    error: Option<ErrorView>,
)
    requires
        before.may_run(stage, resolver, after, error),
    ensures
        after.links == before.links,
        !(stage is LoadOps) ==> after.taken.ops == before.taken.ops,
        !(stage is MetadataRequests) ==> after.taken.metadata == before.taken.metadata,
        !(stage is ResolveRequests) ==> after.taken.resolve == before.taken.resolve,
        !(stage is DataRequests) ==> after.taken.data == before.taken.data,
        before.taken.ops.is_prefix_of(after.taken.ops),
        before.taken.metadata.is_prefix_of(after.taken.metadata),
        before.taken.resolve.is_prefix_of(after.taken.resolve),
        before.taken.data.is_prefix_of(after.taken.data),
        stage is IndirectStates || stage is MetadataRequests || stage is ResolveRequests
            ==> after.storage == before.storage,
        before.storage.is_prefix_of(after.storage),
        stage is AssetChanges || stage is LoadOps || stage is LoadStates || stage is IndirectStates
            ==> after.io == before.io,
        before.io.is_prefix_of(after.io),
        after.io.len() <= before.io.len() + 1,
{
}

/// A stage that ends without an error has taken in everything that had come by then: its channel
/// had nothing more to deliver, unless it delivered more messages than can be counted.
pub proof fn law_stage_takes_in_all_that_came<R: IndirectionResolver + ?Sized>(
    before: PassState,
    stage: Stage,
    resolver: &R,
    after: PassState,
)
    requires
        before.may_run(stage, resolver, after, None),
    ensures
        stage is LoadOps && after.taken.ops.len() < before.taken.ops.len() + u64::MAX
            ==> before.links.may_deliver_op(None),
        stage is MetadataRequests && after.taken.metadata.len() < before.taken.metadata.len()
            + u64::MAX ==> before.links.may_deliver_metadata(None),
        stage is ResolveRequests && after.taken.resolve.len() < before.taken.resolve.len()
            + u64::MAX ==> before.links.may_deliver_resolve(None),
        stage is DataRequests && after.taken.data.len() < before.taken.data.len() + u64::MAX
            ==> before.links.may_deliver_data(None),
{
}

/// Stages that end with an error end with that of one of them: those before it went well, it ended
/// with the error, and no stage after it was run. Returned are the place of that stage, and the
/// state in which it began.
pub proof fn law_error_is_that_of_one_stage<R: IndirectionResolver + ?Sized>(
    before: PassState,
    stages: Seq<Stage>,
    resolver: &R,
    after: PassState,
    error: ErrorView,
) -> (r: (int, PassState))
    requires
        before.may_run_all(stages, resolver, after, Some(error)),
    ensures
        0 <= r.0 < stages.len(),
        before.may_run_all(stages.take(r.0), resolver, r.1, None),
        r.1.may_run(stages[r.0], resolver, after, Some(error)),
    decreases stages.len(),
{
    let init = stages.drop_last();
    if before.may_run_all(init, resolver, after, Some(error)) {
        let r = law_error_is_that_of_one_stage(before, init, resolver, after, error);
        assert(init.take(r.0) =~= stages.take(r.0));
        r
    } else {
        let mid = choose|mid: PassState|
            {
                &&& before.may_run_all(init, resolver, mid, None)
                &&& #[trigger] mid.may_run(stages.last(), resolver, after, Some(error))
            };
        assert(init =~= stages.take(stages.len() - 1));
        (stages.len() - 1, mid)
    }
}

/// A loader to which nothing has happened has nothing: no load, no identifier, nothing pending,
/// nothing invalidated, no handle and no failure.
pub proof fn law_new_loader_has_nothing(key: u64, uuid: u128, id: (Seq<char>, Option<u128>))
    ensures
        !LoaderView::empty().loads.contains_key(key),
        !LoaderView::empty().by_uuid.contains_key(uuid),
        !LoaderView::empty().indirects.contains_key(key),
        !LoaderView::empty().by_identifier.contains_key(id),
        !LoaderView::empty().table.contains_key(key),
        LoaderView::empty().pending_reloads.len() == 0,
        LoaderView::empty().invalidated.len() == 0,
        LoaderView::empty().given.len() == 0,
        LoaderView::empty().failures.len() == 0,
{
}

/// Assets that are invalidated wait behind those that were invalidated before, in their order, each
/// as often as it was; nothing else changes. When a pass begins, the failures of the last one are
/// forgotten besides.
pub proof fn law_invalidated_assets_wait_in_order(s: LoaderView, assets: Seq<u128>, i: int)
    ensures
        s.invalidate(assets).invalidated.len() == s.invalidated.len() + assets.len(),
        0 <= i < s.invalidated.len() ==> s.invalidate(assets).invalidated[i] == s.invalidated[i],
        0 <= i < assets.len() ==> s.invalidate(assets).invalidated[s.invalidated.len() + i]
            == assets[i],
        s.invalidate(assets) == (LoaderView {
            invalidated: s.invalidate(assets).invalidated,
            ..s
        }),
        s.begun(assets).failures.len() == 0,
        s.begun(assets) == (LoaderView {
            failures: s.begun(assets).failures,
            ..s.invalidate(assets)
        }),
{
}

/// An identifier that is new gets the handle that was given out for it, with its highest bit set.
/// Nobody holds it yet, it is bound to nothing, and nothing goes on with it; nothing else changes.
pub proof fn law_new_identifier_starts_unbound(
    s: LoaderView,
    id: (Seq<char>, Option<u128>),
    given: LoadHandle,
)
    ensures
        ({
            let key = given.0 | 0x8000_0000_0000_0000u64;
            let t = s.with_new_indirect(id, given);
            &&& t.by_identifier == s.by_identifier.insert(id, key)
            &&& t.given == s.given.push(given)
            &&& t.indirects == s.indirects.insert(key, t.indirects[key])
            &&& t.indirects[key].id == id
            &&& t.indirects[key].refs == 0
            &&& t.indirects[key].resolved_uuid is None
            &&& t.indirects[key].state is Idle
            &&& !t.indirects[key].pending_reresolve
            &&& t == (LoaderView {
                by_identifier: t.by_identifier,
                given: t.given,
                indirects: t.indirects,
                ..s
            })
        }),
{
    law_mark_is_highest_bit(given, given);
}

/// Releasing dependencies succeeds exactly if every one of them is given by its UUID and has a
/// handle. Otherwise the first that is not so says why.
pub proof fn law_release_fails_at_first_unknown_dependency(
    s: LoaderView,
    deps: Seq<RefView>,
    handle: LoadHandle,
    version: u32,
    d: int,
)
    ensures
        s.remove_dep_refs(deps, handle, version) is Ok <==> forall|j: int|
            0 <= j < deps.len() ==> (#[trigger] deps[j]) is Uuid && s.by_uuid.contains_key(
                deps[j]->Uuid_0.0,
            ),
        0 <= d < deps.len() && (forall|j: int|
            0 <= j < d ==> (#[trigger] deps[j]) is Uuid && s.by_uuid.contains_key(
                deps[j]->Uuid_0.0,
            )) ==> {
            &&& deps[d] is Path ==> s.remove_dep_refs(deps, handle, version) == Err::<
                LoaderView,
                ErrorView,
            >(ErrorView::ExpectedUuid(handle, version))
            &&& deps[d] is Uuid && !s.by_uuid.contains_key(deps[d]->Uuid_0.0)
                ==> s.remove_dep_refs(deps, handle, version) == Err::<LoaderView, ErrorView>(
                ErrorView::MissingDependency(deps[d]->Uuid_0),
            )
        },
    decreases deps.len(),
{
    if deps.len() > 0 {
        let init = deps.drop_last();
        assert(deps[deps.len() - 1] == deps.last());
        assert forall|j: int| 0 <= j < init.len() implies #[trigger] init[j] == deps[j] by {}
        law_release_fails_at_first_unknown_dependency(s, init, handle, version, d);
        if let Ok(mid) = s.remove_dep_refs(init, handle, version) {
            lemma_release_keeps_handles(s, init, handle, version);
            assert(mid.by_uuid == s.by_uuid);
            assert forall|j: int| 0 <= j < init.len() implies (#[trigger] deps[j]) is Uuid
                && s.by_uuid.contains_key(deps[j]->Uuid_0.0) by {
                assert(init[j] == deps[j]);
            }
        } else {
            assert(exists|j: int|
                0 <= j < init.len() && !((#[trigger] init[j]) is Uuid && s.by_uuid.contains_key(
                    init[j]->Uuid_0.0,
                )));
            let j = choose|j: int|
                0 <= j < init.len() && !((#[trigger] init[j]) is Uuid && s.by_uuid.contains_key(
                    init[j]->Uuid_0.0,
                ));
            assert(deps[j] == init[j]);
        }
    }
}

/// Releasing dependencies keeps the handles of assets.
proof fn lemma_release_keeps_handles(
    s: LoaderView,
    deps: Seq<RefView>,
    handle: LoadHandle,
    version: u32,
)
    ensures
        s.remove_dep_refs(deps, handle, version) matches Ok(t) ==> t.by_uuid == s.by_uuid,
    decreases deps.len(),
{
    if deps.len() > 0 {
        lemma_release_keeps_handles(s, deps.drop_last(), handle, version);
        if let Ok(mid) = s.remove_dep_refs(deps.drop_last(), handle, version) {
            if let RefView::Uuid(uuid) = deps.last() {
                mid.lemma_remove_chain_keeps(
                    LoadHandle(mid.by_uuid[uuid.0]),
                    1,
                    mid.indirects.dom().len() + 1,
                );
            }
        }
    }
}

/// A version that requests its dependencies references all that its description names, and one that
/// is unloaded releases all that its description names; a version without a description depends on
/// nothing. Neither changes anything else in the loader.
pub proof fn law_version_holds_what_it_depends_on(
    s: LoaderView,
    key: u64,
    has_refs: bool,
    newest: u32,
    v: VersionView,
    fresh: Map<u128, u64>,
)
    requires
        v.state == LoadState::RequestDependencies || v.state == LoadState::UnloadRequested,
    ensures
        ({
            let deps = match v.metadata {
                Some(m) => m.load_deps,
                None => Seq::empty(),
            };
            let r = s.step_version(key, has_refs, newest, v, fresh);
            &&& v.state == LoadState::RequestDependencies ==> (r matches Ok(step) && {
                &&& step.loader == s.add_dep_refs(deps, fresh)
                &&& step.version == (VersionView {
                    state: LoadState::WaitingForDependencies,
                    ..v
                })
                &&& step.calls.len() == 0
                &&& !step.stale
            })
            &&& v.state == LoadState::UnloadRequested ==> (r matches Ok(step) ==> {
                &&& s.remove_dep_refs(deps, LoadHandle(key), v.version) == Ok::<
                    LoaderView,
                    ErrorView,
                >(step.loader)
                &&& step.version == (VersionView {
                    state: LoadState::Unloading,
                    asset_type: None,
                    ..v
                })
                &&& !step.stale
            })
        }),
{
}

/// A version that is to be unloaded and whose dependencies cannot all be released is an error; the
/// storage has given the version up by then, if it held it.
pub proof fn law_version_is_given_up_before_failed_release(
    s: LoaderView,
    key: u64,
    has_refs: bool,
    newest: u32,
    v: VersionView,
    fresh: Map<u128, u64>,
)
    requires
        v.state == LoadState::UnloadRequested,
    ensures
        ({
            let deps = match v.metadata {
                Some(m) => m.load_deps,
                None => Seq::empty(),
            };
            let r = s.step_version(key, has_refs, newest, v, fresh);
            &&& r is Err <==> s.remove_dep_refs(deps, LoadHandle(key), v.version) is Err
            &&& r matches Err(stop) ==> {
                &&& Err::<LoaderView, ErrorView>(stop.error) == s.remove_dep_refs(
                    deps,
                    LoadHandle(key),
                    v.version,
                )
                &&& stop.calls == (match v.asset_type {
                    Some(asset_type) => seq![
                        StorageCall::Free {
                            asset_type,
                            handle: LoadHandle(key),
                            version: v.version,
                        },
                    ],
                    None => Seq::empty(),
                })
            }
        }),
{
}

/// A step of a version fails only while it waits for its dependencies or releases them.
pub proof fn law_other_steps_do_not_fail(
    s: LoaderView,
    key: u64,
    has_refs: bool,
    newest: u32,
    v: VersionView,
    fresh: Map<u128, u64>,
)
    requires
        v.state != LoadState::WaitingForDependencies,
        v.state != LoadState::UnloadRequested,
    ensures
        s.step_version(key, has_refs, newest, v, fresh) matches Ok(step) && {
            &&& step.calls.len() == 0
            &&& step.version.version == v.version
            &&& step.version.metadata == v.metadata
            &&& step.version.asset_type == v.asset_type
            &&& step.version.auto_commit == v.auto_commit
            &&& v.state != LoadState::RequestDependencies ==> step.loader == s
        },
{
}

/// A load fails before its versions are seen to exactly if a new version of it is due and its
/// numbers are used up. If it does not, and no version of it waits for dependencies or is to be
/// unloaded, it does not fail.
pub proof fn law_load_fails_when_numbers_are_used_up(
    s: LoaderView,
    key: u64,
    fresh: Map<u128, u64>,
)
    requires
        s.loads.contains_key(key),
        s.loads[key].versions.len() > 0,
    ensures
        ({
            let load = s.loads[key];
            let due = {
                &&& load.refs > 0
                &&& load.pending_reload
                &&& forall|i: int|
                    0 <= i < load.versions.len() ==> (#[trigger] load.versions[i]).state
                        == LoadState::Loaded
            };
            &&& due && load.version_counter == u32::MAX ==> s.step_load(key, fresh) == Err::<
                (LoaderView, Seq<StorageCall>),
                Stop,
            >(
                Stop {
                    error: ErrorView::VersionsExhausted(LoadHandle(key)),
                    calls: Seq::empty(),
                },
            )
            &&& !(due && load.version_counter == u32::MAX) && (forall|i: int|
                0 <= i < load.versions.len() ==> (#[trigger] load.versions[i]).state
                    != LoadState::WaitingForDependencies && load.versions[i].state
                    != LoadState::UnloadRequested) ==> s.step_load(key, fresh) is Ok
        }),
{
    let load = s.loads[key];
    let started = s.started(key);
    let begun = s.with_load(key, started);
    if !(load.starts_reload() && load.version_counter == u32::MAX) && (forall|i: int|
        0 <= i < load.versions.len() ==> (#[trigger] load.versions[i]).state
            != LoadState::WaitingForDependencies && load.versions[i].state
            != LoadState::UnloadRequested) {
        assert forall|i: int| 0 <= i < started.versions.len() implies (
        #[trigger] started.versions[i]).state != LoadState::WaitingForDependencies
            && started.versions[i].state != LoadState::UnloadRequested by {
            if i < load.versions.len() {
                assert(started.versions[i] == load.versions[i]);
            }
        }
        lemma_steps_do_not_fail(
            begun,
            key,
            load.refs > 0,
            newest(started.versions),
            started.versions,
            fresh,
        );
    }
}

proof fn lemma_steps_do_not_fail(
    s: LoaderView,
    key: u64,
    has_refs: bool,
    newest: u32,
    versions: Seq<VersionView>,
    fresh: Map<u128, u64>,
)
    requires
        forall|i: int|
            0 <= i < versions.len() ==> (#[trigger] versions[i]).state
                != LoadState::WaitingForDependencies && versions[i].state
                != LoadState::UnloadRequested,
    ensures
        s.step_versions(key, has_refs, newest, versions, fresh) is Ok,
    decreases versions.len(),
{
    if versions.len() > 0 {
        let init = versions.drop_last();
        assert forall|i: int| 0 <= i < init.len() implies (#[trigger] init[i]).state
            != LoadState::WaitingForDependencies && init[i].state
            != LoadState::UnloadRequested by {
            assert(init[i] == versions[i]);
        }
        lemma_steps_do_not_fail(s, key, has_refs, newest, init, fresh);
        assert(versions[versions.len() - 1] == versions.last());
    }
}

/// A description that was asked for by a version that is not there any more makes a new version, as
/// one that nobody asked for does, or is an error if the numbers are used up.
pub proof fn law_description_for_missing_version_makes_one(
    s: LoaderView,
    m: MetadataView,
    handle: LoadHandle,
    version: u32,
    fresh: Map<u128, u64>,
)
    requires
        s.loads.contains_key(handle.0),
        forall|i: int|
            0 <= i < s.loads[handle.0].versions.len() ==> (
            #[trigger] s.loads[handle.0].versions[i]).version != version,
    ensures
        ({
            let load = s.loads[handle.0];
            let r = s.describe(m, Some((handle, version)), fresh);
            if load.version_counter == u32::MAX {
                r == Err::<LoaderView, ErrorView>(ErrorView::VersionsExhausted(handle))
            } else {
                r matches Ok(t) && load.has_got_anew(m, t.loads[handle.0]) && t == (LoaderView {
                    loads: s.loads.insert(handle.0, t.loads[handle.0]),
                    ..s
                })
            }
        }),
{
    lemma_position_none(s.loads[handle.0].versions, VersionQuery::Number(version));
}

/// An open request for a load or a version that is not there is an error; an answer about an
/// identifier that is not there is one too.
pub proof fn law_answer_for_nothing_is_error(
    s: LoaderView,
    handle: LoadHandle,
    version: u32,
    message: ResolveMessage,
    choice: Option<AssetUuid>,
    fresh: Map<u128, u64>,
)
    ensures
        !s.loads.contains_key(handle.0) ==> s.requeue((handle, version)) == Err::<
            LoaderView,
            ErrorView,
        >(ErrorView::MissingLoad(handle)),
        s.loads.contains_key(handle.0) && (forall|i: int|
            0 <= i < s.loads[handle.0].versions.len() ==> (
            #[trigger] s.loads[handle.0].versions[i]).version != version) ==> s.requeue(
            (handle, version),
        ) == Err::<LoaderView, ErrorView>(ErrorView::MissingVersion(handle, version)),
        !s.indirects.contains_key(message.handle.0) ==> s.receive_candidates(
            message,
            choice,
            fresh,
        ) == Err::<LoaderView, ErrorView>(ErrorView::MissingIndirect(message.handle)),
{
    lemma_position_none(s.loads[handle.0].versions, VersionQuery::Number(version));
}

} // verus!
