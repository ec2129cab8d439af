//! One after the other: what is done to several things is what is done to each of them in turn.

use vstd::prelude::*;
use crate::data_requests::DataMessage;
use crate::error::ErrorView;
use crate::ids::{AssetUuid, LoadHandle, RefView};
use crate::load::VersionView;
use crate::load_ops::OpMessage;
use crate::load_states::VersionsStep;
use crate::metadata::MetadataView;
use crate::metadata_requests::MetadataMessage;
use crate::model::{LoaderView, PendingReload, Stop};
use crate::resolve_requests::ResolveMessage;
use crate::storage::{IndirectionResolver, StorageCall};

verus! {

/// What comes of one thing after another: the error of the first, or else that of the second, after
/// the calls of the first; or else the state after the second, and the calls of both.
pub open spec fn in_turn(
    first: Result<(LoaderView, Seq<StorageCall>), Stop>,
    second: spec_fn(LoaderView) -> Result<(LoaderView, Seq<StorageCall>), Stop>,
) -> Result<(LoaderView, Seq<StorageCall>), Stop> {
    match first {
        Err(stop) => Err(stop),
        Ok((mid, some)) => match second(mid) {
            Err(stop) => Err(Stop { error: stop.error, calls: some + stop.calls }),
            Ok((after, more)) => Ok((after, some + more)),
        },
    }
}

/// Reports are taken in one after the other, however many there are.
pub proof fn law_reports_are_taken_in_turn(
    s: LoaderView,
    a: Seq<OpMessage>,
    b: Seq<OpMessage>,
    op: OpMessage,
)
    ensures
        s.receive_all_ops(Seq::empty()) == Ok::<(LoaderView, Seq<StorageCall>), Stop>(
            (s, Seq::empty()),
        ),
        s.receive_all_ops(seq![op]) == s.receive_op(op),
        s.receive_all_ops(a + b) == in_turn(
            s.receive_all_ops(a),
            |mid: LoaderView| mid.receive_all_ops(b),
        ),
    decreases b.len(),
{
    let one = seq![op];
    assert(one.drop_last() =~= Seq::empty());
    assert(s.receive_all_ops(one.drop_last()) == Ok::<(LoaderView, Seq<StorageCall>), Stop>(
        (s, Seq::empty()),
    ));
    lemma_nothing_before(s.receive_op(op));
    if b.len() == 0 {
        assert(a + b =~= a);
        lemma_nothing_after(s.receive_all_ops(a));
    } else {
        assert((a + b).drop_last() =~= a + b.drop_last());
        law_reports_are_taken_in_turn(s, a, b.drop_last(), op);
        if let Ok((mid, some)) = s.receive_all_ops(a) {
            if let Ok((t, more)) = mid.receive_all_ops(b.drop_last()) {
                lemma_calls_in_turn(some, more, t.receive_op(b.last()));
            }
        }
    }
}

/// Answers with data are taken in one after the other, however many there are.
pub proof fn law_data_is_taken_in_turn(
    s: LoaderView,
    a: Seq<(DataMessage, Option<Seq<char>>)>,
    b: Seq<(DataMessage, Option<Seq<char>>)>,
    message: (DataMessage, Option<Seq<char>>),
)
    ensures
        s.receive_all_data(Seq::empty()) == Ok::<(LoaderView, Seq<StorageCall>), Stop>(
            (s, Seq::empty()),
        ),
        s.receive_all_data(seq![message]) == s.receive_data(message.0, message.1),
        s.receive_all_data(a + b) == in_turn(
            s.receive_all_data(a),
            |mid: LoaderView| mid.receive_all_data(b),
        ),
    decreases b.len(),
{
    let one = seq![message];
    assert(one.drop_last() =~= Seq::empty());
    assert(s.receive_all_data(one.drop_last()) == Ok::<(LoaderView, Seq<StorageCall>), Stop>(
        (s, Seq::empty()),
    ));
    lemma_nothing_before(s.receive_data(message.0, message.1));
    if b.len() == 0 {
        assert(a + b =~= a);
        lemma_nothing_after(s.receive_all_data(a));
    } else {
        assert((a + b).drop_last() =~= a + b.drop_last());
        law_data_is_taken_in_turn(s, a, b.drop_last(), message);
        if let Ok((mid, some)) = s.receive_all_data(a) {
            if let Ok((t, more)) = mid.receive_all_data(b.drop_last()) {
                lemma_calls_in_turn(some, more, t.receive_data(b.last().0, b.last().1));
            }
        }
    }
}

/// Loads are taken further one after the other, however many there are.
pub proof fn law_loads_are_stepped_in_turn(
    s: LoaderView,
    a: Seq<u64>,
    b: Seq<u64>,
    key: u64,
    fresh: Map<u128, u64>,
)
    ensures
        s.step_loads(Seq::empty(), fresh) == Ok::<(LoaderView, Seq<StorageCall>), Stop>(
            (s, Seq::empty()),
        ),
        s.step_loads(seq![key], fresh) == s.step_load(key, fresh),
        s.step_loads(a + b, fresh) == in_turn(
            s.step_loads(a, fresh),
            |mid: LoaderView| mid.step_loads(b, fresh),
        ),
    decreases b.len(),
{
    let one = seq![key];
    assert(one.drop_last() =~= Seq::empty());
    assert(s.step_loads(one.drop_last(), fresh) == Ok::<(LoaderView, Seq<StorageCall>), Stop>(
        (s, Seq::empty()),
    ));
    lemma_nothing_before(s.step_load(key, fresh));
    if b.len() == 0 {
        assert(a + b =~= a);
        lemma_nothing_after(s.step_loads(a, fresh));
    } else {
        assert((a + b).drop_last() =~= a + b.drop_last());
        law_loads_are_stepped_in_turn(s, a, b.drop_last(), key, fresh);
        if let Ok((mid, some)) = s.step_loads(a, fresh) {
            if let Ok((t, more)) = mid.step_loads(b.drop_last(), fresh) {
                lemma_calls_in_turn(some, more, t.step_load(b.last(), fresh));
            }
        }
    }
}

/// Reloads are committed one after the other, however many there are.
pub proof fn law_reloads_are_committed_in_turn(
    s: LoaderView,
    a: Seq<PendingReload>,
    b: Seq<PendingReload>,
    reload: PendingReload,
)
    ensures
        s.commit_reloads(Seq::empty()) == Ok::<(LoaderView, Seq<StorageCall>), Stop>(
            (s, Seq::empty()),
        ),
        s.commit_reloads(seq![reload]) == s.commit_reload(reload),
        s.commit_reloads(a + b) == in_turn(
            s.commit_reloads(a),
            |mid: LoaderView| mid.commit_reloads(b),
        ),
    decreases b.len(),
{
    let one = seq![reload];
    assert(one.drop_last() =~= Seq::empty());
    assert(s.commit_reloads(one.drop_last()) == Ok::<(LoaderView, Seq<StorageCall>), Stop>(
        (s, Seq::empty()),
    ));
    lemma_nothing_before(s.commit_reload(reload));
    if b.len() == 0 {
        assert(a + b =~= a);
        lemma_nothing_after(s.commit_reloads(a));
    } else {
        assert((a + b).drop_last() =~= a + b.drop_last());
        law_reloads_are_committed_in_turn(s, a, b.drop_last(), reload);
        if let Ok((mid, some)) = s.commit_reloads(a) {
            if let Ok((t, more)) = mid.commit_reloads(b.drop_last()) {
                lemma_calls_in_turn(some, more, t.commit_reload(b.last()));
            }
        }
    }
}

/// The descriptions of an answer are taken in one after the other, however many there are, and each
/// closes the request for its asset.
pub proof fn law_descriptions_are_taken_in_turn(
    s: LoaderView,
    a: Seq<MetadataView>,
    b: Seq<MetadataView>,
    m: MetadataView,
    requests: Map<u128, (LoadHandle, u32)>,
    fresh: Map<u128, u64>,
)
    ensures
        s.describe_all(Seq::empty(), requests, fresh) == Ok::<
            (LoaderView, Map<u128, (LoadHandle, u32)>),
            ErrorView,
        >((s, requests)),
        s.describe_all(seq![m], requests, fresh) == (match s.describe(
            m,
            requests.get(m.asset_id.0),
            fresh,
        ) {
            Ok(after) => Ok((after, requests.remove(m.asset_id.0))),
            Err(e) => Err(e),
        }),
        s.describe_all(a + b, requests, fresh) == (match s.describe_all(a, requests, fresh) {
            Ok((mid, rest)) => mid.describe_all(b, rest, fresh),
            Err(e) => Err(e),
        }),
    decreases b.len(),
{
    let one = seq![m];
    assert(one.drop_last() =~= Seq::empty());
    assert(s.describe_all(one.drop_last(), requests, fresh) == Ok::<
        (LoaderView, Map<u128, (LoadHandle, u32)>),
        ErrorView,
    >((s, requests)));
    if b.len() == 0 {
        assert(a + b =~= a);
    } else {
        assert((a + b).drop_last() =~= a + b.drop_last());
        law_descriptions_are_taken_in_turn(s, a, b.drop_last(), m, requests, fresh);
    }
}

/// Open requests are made again one after the other, however many there are.
pub proof fn law_requests_are_made_again_in_turn(
    s: LoaderView,
    requests: Map<u128, (LoadHandle, u32)>,
    a: Seq<u128>,
    b: Seq<u128>,
    uuid: u128,
)
    ensures
        s.requeue_all(requests, Seq::empty()) == Ok::<LoaderView, ErrorView>(s),
        s.requeue_all(requests, seq![uuid]) == s.requeue(requests[uuid]),
        s.requeue_all(requests, a + b) == (match s.requeue_all(requests, a) {
            Ok(mid) => mid.requeue_all(requests, b),
            Err(e) => Err(e),
        }),
    decreases b.len(),
{
    let one = seq![uuid];
    assert(one.drop_last() =~= Seq::empty());
    assert(s.requeue_all(requests, one.drop_last()) == Ok::<LoaderView, ErrorView>(s));
    if b.len() == 0 {
        assert(a + b =~= a);
    } else {
        assert((a + b).drop_last() =~= a + b.drop_last());
        law_requests_are_made_again_in_turn(s, requests, a, b.drop_last(), uuid);
    }
}

/// Assets are marked as changed one after the other, however many there are.
pub proof fn law_changes_are_marked_in_turn(
    s: LoaderView,
    a: Seq<u128>,
    b: Seq<u128>,
    uuid: u128,
)
    ensures
        s.mark_all_changed(Seq::empty()) == s,
        s.mark_all_changed(seq![uuid]) == s.mark_changed(uuid),
        s.mark_all_changed(a + b) == s.mark_all_changed(a).mark_all_changed(b),
    decreases b.len(),
{
    let one = seq![uuid];
    assert(one.drop_last() =~= Seq::empty());
    assert(s.mark_all_changed(one.drop_last()) == s);
    if b.len() == 0 {
        assert(a + b =~= a);
    } else {
        assert((a + b).drop_last() =~= a + b.drop_last());
        law_changes_are_marked_in_turn(s, a, b.drop_last(), uuid);
    }
}

/// Dependencies are referenced one after the other, however many there are: each time that an asset
/// is among them, it is referenced once. Those that are given by a path are passed over.
pub proof fn law_dependencies_are_referenced_in_turn(
    s: LoaderView,
    a: Seq<RefView>,
    b: Seq<RefView>,
    dep: RefView,
    fresh: Map<u128, u64>,
)
    ensures
        s.add_dep_refs(Seq::empty(), fresh) == s,
        s.add_dep_refs(seq![dep], fresh) == (match dep {
            RefView::Uuid(uuid) => s.add_refs(uuid.0, 1, fresh),
            RefView::Path(_) => s,
        }),
        s.add_dep_refs(a + b, fresh) == s.add_dep_refs(a, fresh).add_dep_refs(b, fresh),
    decreases b.len(),
{
    let one = seq![dep];
    assert(one.drop_last() =~= Seq::empty());
    assert(s.add_dep_refs(one.drop_last(), fresh) == s);
    if b.len() == 0 {
        assert(a + b =~= a);
    } else {
        assert((a + b).drop_last() =~= a + b.drop_last());
        law_dependencies_are_referenced_in_turn(s, a, b.drop_last(), dep, fresh);
    }
}

/// Dependencies are released one after the other, however many there are, once for each time that
/// an asset is among them. It is an error if one is given by its path, or has no load.
pub proof fn law_dependencies_are_released_in_turn(
    s: LoaderView,
    a: Seq<RefView>,
    b: Seq<RefView>,
    dep: RefView,
    handle: LoadHandle,
    version: u32,
)
    ensures
        s.remove_dep_refs(Seq::empty(), handle, version) == Ok::<LoaderView, ErrorView>(s),
        s.remove_dep_refs(seq![dep], handle, version) == (match dep {
            RefView::Path(_) => Err(ErrorView::ExpectedUuid(handle, version)),
            RefView::Uuid(uuid) => if s.by_uuid.contains_key(uuid.0) {
                Ok(s.remove_refs(LoadHandle(s.by_uuid[uuid.0]), 1))
            } else {
                Err(ErrorView::MissingDependency(uuid))
            },
        }),
        s.remove_dep_refs(a + b, handle, version) == (match s.remove_dep_refs(
            a,
            handle,
            version,
        ) {
            Ok(mid) => mid.remove_dep_refs(b, handle, version),
            Err(e) => Err(e),
        }),
    decreases b.len(),
{
    let one = seq![dep];
    assert(one.drop_last() =~= Seq::empty());
    assert(s.remove_dep_refs(one.drop_last(), handle, version) == Ok::<LoaderView, ErrorView>(s));
    if b.len() == 0 {
        assert(a + b =~= a);
    } else {
        assert((a + b).drop_last() =~= a + b.drop_last());
        law_dependencies_are_released_in_turn(s, a, b.drop_last(), dep, handle, version);
    }
}

/// The versions of a load are taken further one after the other, however many there are: each gets
/// its own step, and the calls to the storage come in the order of the versions.
pub proof fn law_versions_are_stepped_in_turn(
    s: LoaderView,
    key: u64,
    has_refs: bool,
    newest: u32,
    a: Seq<VersionView>,
    b: Seq<VersionView>,
    fresh: Map<u128, u64>,
)
    ensures
        s.step_versions(key, has_refs, newest, a + b, fresh) == (match s.step_versions(
            key,
            has_refs,
            newest,
            a,
            fresh,
        ) {
            Err(stop) => Err(stop),
            Ok(p) => match p.loader.step_versions(key, has_refs, newest, b, fresh) {
                Err(stop) => Err(Stop { error: stop.error, calls: p.calls + stop.calls }),
                Ok(q) => Ok(
                    VersionsStep {
                        loader: q.loader,
                        versions: p.versions + q.versions,
                        calls: p.calls + q.calls,
                        stale: p.stale + q.stale,
                    },
                ),
            },
        }),
    decreases b.len(),
{
    if b.len() == 0 {
        assert(a + b =~= a);
        if let Ok(p) = s.step_versions(key, has_refs, newest, a, fresh) {
            assert(p.versions + Seq::empty() =~= p.versions);
            assert(p.calls + Seq::empty() =~= p.calls);
            assert(p.stale + Seq::empty() =~= p.stale);
        }
    } else {
        assert((a + b).drop_last() =~= a + b.drop_last());
        law_versions_are_stepped_in_turn(s, key, has_refs, newest, a, b.drop_last(), fresh);
        if let Ok(p) = s.step_versions(key, has_refs, newest, a, fresh) {
            let init = b.drop_last();
            if let Ok(q) = p.loader.step_versions(key, has_refs, newest, init, fresh) {
                match q.loader.step_version(key, has_refs, newest, b.last(), fresh) {
                    Ok(r) => {
                        assert((p.versions + q.versions).push(r.version) =~= p.versions
                            + q.versions.push(r.version));
                        assert(p.calls + q.calls + r.calls =~= p.calls + (q.calls + r.calls));
                        assert((p.stale + q.stale).push(r.version.version) =~= p.stale
                            + q.stale.push(r.version.version));
                    },
                    Err(stop) => {
                        assert((p.calls + q.calls) + stop.calls =~= p.calls + (q.calls
                            + stop.calls));
                    },
                }
            }
        }
    }
}

/// Answers about metadata are taken in one after the other, however many there are.
pub proof fn law_metadata_is_taken_in_turn(
    s: LoaderView,
    messages: Seq<MetadataMessage>,
    message: MetadataMessage,
    after: LoaderView,
) -> (mid: LoaderView)
    requires
        s.may_receive_all_metadata(messages.push(message), Ok(after)),
    ensures
        s.may_receive_all_metadata(messages, Ok(mid)),
        mid.may_receive_metadata(message, after.by_uuid, Ok(after)),
{
    let all = messages.push(message);
    assert(all.drop_last() =~= messages);
    let (mid, fresh) = choose|mid: LoaderView, fresh: Map<u128, u64>|
        {
            &&& s.may_receive_all_metadata(all.drop_last(), Ok(mid))
            &&& #[trigger] mid.may_receive_metadata(
                all.last(),
                fresh,
                Ok::<LoaderView, ErrorView>(after),
            )
            &&& fresh == after.by_uuid && after.extends(mid)
        };
    mid
}

/// Answers about identifiers are taken in one after the other, however many there are, and the
/// resolver chooses for each of them.
pub proof fn law_candidates_are_taken_in_turn<R: IndirectionResolver + ?Sized>(
    s: LoaderView,
    resolver: &R,
    messages: Seq<(ResolveMessage, Option<AssetUuid>)>,
    message: ResolveMessage,
    choice: Option<AssetUuid>,
    after: LoaderView,
) -> (mid: LoaderView)
    requires
        s.may_receive_all_candidates(resolver, messages.push((message, choice)), Ok(after)),
    ensures
        s.may_receive_all_candidates(resolver, messages, Ok(mid)),
        mid.receive_candidates(message, choice, after.by_uuid) == Ok::<LoaderView, ErrorView>(
            after,
        ),
        message.candidates matches Ok(candidates) ==> resolver.may_resolve(
            message.id,
            candidates,
            choice,
        ),
{
    let all = messages.push((message, choice));
    assert(all.drop_last() =~= messages);
    let (mid, fresh) = choose|mid: LoaderView, fresh: Map<u128, u64>|
        {
            &&& s.may_receive_all_candidates(resolver, all.drop_last(), Ok(mid))
            &&& Ok::<LoaderView, ErrorView>(after) == #[trigger] mid.receive_candidates(
                all.last().0,
                all.last().1,
                fresh,
            )
            &&& all.last().0.allows(resolver, all.last().1)
            &&& fresh == after.by_uuid && after.extends(mid)
        };
    mid
}

/// After nothing, calls are as they are.
proof fn lemma_nothing_before(r: Result<(LoaderView, Seq<StorageCall>), Stop>)
    ensures
        match r {
            Ok((_, calls)) => Seq::<StorageCall>::empty() + calls == calls,
            Err(stop) => Seq::<StorageCall>::empty() + stop.calls == stop.calls,
        },
{
    match r {
        Ok((_, calls)) => assert(Seq::<StorageCall>::empty() + calls =~= calls),
        Err(stop) => assert(Seq::<StorageCall>::empty() + stop.calls =~= stop.calls),
    }
}

/// Before nothing, calls are as they are.
proof fn lemma_nothing_after(r: Result<(LoaderView, Seq<StorageCall>), Stop>)
    ensures
        r matches Ok((_, calls)) ==> calls + Seq::<StorageCall>::empty() == calls,
{
    if let Ok((_, calls)) = r {
        assert(calls + Seq::<StorageCall>::empty() =~= calls);
    }
}

/// Calls one after the other, of three things.
proof fn lemma_calls_in_turn(
    a: Seq<StorageCall>,
    b: Seq<StorageCall>,
    r: Result<(LoaderView, Seq<StorageCall>), Stop>,
)
    ensures
        match r {
            Ok((_, calls)) => (a + b) + calls == a + (b + calls),
            Err(stop) => (a + b) + stop.calls == a + (b + stop.calls),
        },
{
    match r {
        Ok((_, calls)) => assert((a + b) + calls =~= a + (b + calls)),
        Err(stop) => assert((a + b) + stop.calls =~= a + (b + stop.calls)),
    }
}

} // verus!
