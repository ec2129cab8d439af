//! How often assets and identifiers are held, reference by reference.

use vstd::arithmetic::div_mod::{
    lemma_add_mod_noop_right, lemma_mod_add_multiples_vanish, lemma_small_mod,
};
use vstd::prelude::*;
use crate::error::{ErrorView, FailureView};
use crate::ids::{AssetUuid, LoadHandle};
use crate::indirect::{IndirectHandleState, IndirectView};
use crate::load::{LoadState, LoadView, VersionView};
use crate::model::LoaderView;
use crate::resolve_requests::ResolveMessage;
use crate::model::distinct_handles;
use crate::laws::answers::law_load_info_tells_asset_and_references;
use crate::laws::counts::shifted;

verus! {

/// Referencing an asset `n` times more raises the number of references to its load by exactly `n`,
/// and changes nothing else in that load, nor any other load. The number wraps around.
pub proof fn law_adding_references_counts_each(
    s: LoaderView,
    uuid: u128,
    n: usize,
    fresh: Map<u128, u64>,
)
    requires
        s.wf(),
        s.by_uuid.contains_key(uuid),
    ensures
        ({
            let key = s.by_uuid[uuid];
            let t = s.add_refs(uuid, n, fresh);
            &&& t.loads.contains_key(key)
            &&& t.loads[key].refs as int == shifted(s.loads[key].refs as int, n as int)
            &&& s.loads[key].refs + n <= usize::MAX ==> t.loads[key].refs == s.loads[key].refs + n
            &&& t.loads[key] == (LoadView { refs: t.loads[key].refs, ..s.loads[key] })
            &&& t == (LoaderView { loads: t.loads, ..s })
            &&& t.loads.dom() == s.loads.dom()
            &&& forall|other: u64| other != key ==> #[trigger] t.loads[other] == s.loads[other]
        }),
{
    let key = s.by_uuid[uuid];
    assert(s.loads.contains_key(key));
    assert(s.add_refs(uuid, n, fresh).loads.dom() =~= s.loads.dom());
    lemma_wrapping(s.loads[key].refs, n);
}

/// An asset that has no load gets one when it is referenced, under the handle that was given out
/// for it. It has as many references as were asked for, and one version, which is number 1, of
/// which nothing is known, with which nothing goes on, and which comes into use by itself.
pub proof fn law_first_reference_makes_load(
    s: LoaderView,
    uuid: u128,
    n: usize,
    fresh: Map<u128, u64>,
)
    requires
        s.wf(),
        !s.by_uuid.contains_key(uuid),
    ensures
        ({
            let key = fresh[uuid];
            let t = s.add_refs(uuid, n, fresh);
            &&& t.by_uuid == s.by_uuid.insert(uuid, key)
            &&& t.given == s.given.push(LoadHandle(key))
            &&& t.loads == s.loads.insert(
                key,
                LoadView {
                    asset_id: AssetUuid(uuid),
                    refs: n,
                    versions: seq![
                        VersionView {
                            state: LoadState::Idle,
                            metadata: None,
                            asset_type: None,
                            auto_commit: true,
                            version: 1,
                        },
                    ],
                    version_counter: 1,
                    pending_reload: false,
                },
            )
            &&& t == (LoaderView { loads: t.loads, by_uuid: t.by_uuid, given: t.given, ..s })
        }),
{
    let key = fresh[uuid];
    let t = s.add_refs(uuid, n, fresh);
    lemma_wrapping(0, n);
    assert(t.loads[key].refs == n);
    assert(t.loads =~= s.loads.insert(key, t.loads[key]));
}

/// Removing `n` references from a direct handle lowers the number of references to its load by
/// exactly `n`, and changes nothing else. The number wraps around. If the handle has no load,
/// nothing happens.
pub proof fn law_removing_references_counts_each(s: LoaderView, load: LoadHandle, n: usize)
    requires
        load.0 < 0x8000_0000_0000_0000u64,
    ensures
        !s.loads.contains_key(load.0) ==> s.remove_refs(load, n) == s,
        s.loads.contains_key(load.0) ==> {
            let t = s.remove_refs(load, n);
            &&& t.loads.contains_key(load.0)
            &&& t.loads[load.0].refs as int == shifted(s.loads[load.0].refs as int, -(n as int))
            &&& n <= s.loads[load.0].refs ==> t.loads[load.0].refs == s.loads[load.0].refs - n
            &&& t.loads[load.0] == (LoadView { refs: t.loads[load.0].refs, ..s.loads[load.0] })
            &&& t == (LoaderView { loads: t.loads, ..s })
            &&& t.loads.dom() == s.loads.dom()
            &&& forall|other: u64| other != load.0 ==> #[trigger] t.loads[other] == s.loads[other]
        },
{
    s.lemma_remove_direct(load, n);
    if s.loads.contains_key(load.0) {
        assert(s.remove_refs(load, n).loads.dom() =~= s.loads.dom());
        lemma_wrapping(s.loads[load.0].refs, n);
    }
}

/// Holding an identifier once more raises how often it is held by one, and, if it is bound, the
/// number of references to its asset by one; nothing else changes.
pub proof fn law_holding_identifier_counts_once(s: LoaderView, key: u64)
    requires
        s.wf(),
        s.indirects.contains_key(key),
    ensures
        ({
            let t = s.add_ref_indirect(key);
            let held = s.indirects[key];
            &&& t.indirects == s.indirects.insert(
                key,
                IndirectView { refs: t.indirects[key].refs, ..held },
            )
            &&& t.indirects[key].refs as int == shifted(held.refs as int, 1)
            &&& t == (LoaderView { loads: t.loads, indirects: t.indirects, ..s })
            &&& match held.resolved_uuid {
                None => t.loads == s.loads,
                Some(uuid) => {
                    let target = s.by_uuid[uuid.0];
                    &&& t.loads == s.loads.insert(
                        target,
                        LoadView { refs: t.loads[target].refs, ..s.loads[target] },
                    )
                    &&& t.loads[target].refs as int == shifted(s.loads[target].refs as int, 1)
                },
            }
        }),
{
    let held = s.indirects[key];
    lemma_wrapping(held.refs, 1);
    if let Some(uuid) = held.resolved_uuid {
        assert(s.by_uuid.contains_key(uuid.0));
        law_adding_references_counts_each(s, uuid.0, 1, s.by_uuid);
        assert(s.loads.contains_key(s.by_uuid[uuid.0]));
    }
}

/// Letting go of an identifier `n` times lowers how often it is held by exactly `n`, and, if it is
/// bound to an asset with a direct handle, the number of references to that asset by one; nothing
/// else changes. If there is no such identifier, nothing happens.
pub proof fn law_releasing_identifier_counts_each(s: LoaderView, load: LoadHandle, n: usize)
    requires
        s.wf(),
        load.0 >= 0x8000_0000_0000_0000u64,
        s.indirects.contains_key(load.0) ==> (s.indirects[load.0].resolved_uuid matches Some(uuid)
            ==> s.by_uuid[uuid.0] < 0x8000_0000_0000_0000u64),
    ensures
        !s.indirects.contains_key(load.0) ==> s.remove_refs(load, n) == s,
        s.indirects.contains_key(load.0) ==> {
            let t = s.remove_refs(load, n);
            let held = s.indirects[load.0];
            &&& t.indirects == s.indirects.insert(
                load.0,
                IndirectView { refs: t.indirects[load.0].refs, ..held },
            )
            &&& t.indirects[load.0].refs as int == shifted(held.refs as int, -(n as int))
            &&& t == (LoaderView { loads: t.loads, indirects: t.indirects, ..s })
            &&& match held.resolved_uuid {
                None => t.loads == s.loads,
                Some(uuid) => {
                    let target = s.by_uuid[uuid.0];
                    &&& t.loads == s.loads.insert(
                        target,
                        LoadView { refs: t.loads[target].refs, ..s.loads[target] },
                    )
                    &&& t.loads[target].refs as int == shifted(s.loads[target].refs as int, -1)
                },
            }
        },
{
    if s.indirects.contains_key(load.0) {
        let held = s.indirects[load.0];
        lemma_wrapping(held.refs, n);
        s.lemma_chain_ends(load, n, s.indirects.dom().len() + 1);
        if let Some(uuid) = held.resolved_uuid {
            let target = LoadHandle(s.by_uuid[uuid.0]);
            assert(s.by_uuid.contains_key(uuid.0));
            assert(s.loads.contains_key(target.0));
            s.lemma_remove_direct(target, 1);
            law_removing_references_counts_each(s, target, 1);
            assert(s.remove_chain(target, 1, 0) == s.remove_direct_refs(target.0, 1));
        }
    }
}

impl LoaderView {
    /// How often an asset is referenced through an identifier.
    pub open spec fn held_for(self, key: u64, uuid: u128) -> int {
        if self.indirects[key].resolved_uuid == Some(AssetUuid(uuid)) {
            self.indirects[key].refs as int
        } else {
            0
        }
    }
}

/// Binding an identifier moves as many references as it is held: the asset that it was bound to
/// loses them, the asset that it is bound to now gets them, and no other asset is touched. Then the
/// table has the load of the asset for it, or nothing if it is bound to none. The handles of assets
/// are direct and not shared.
pub proof fn law_binding_moves_references(
    s: LoaderView,
    key: u64,
    choice: Option<AssetUuid>,
    after: LoaderView,
    uuid: u128,
)
    requires
        s.wf(),
        s.indirects.contains_key(key),
        s.bind(key, choice, after.by_uuid) == after,
        distinct_handles(after.by_uuid),
        forall|u: u128| #[trigger]
            after.by_uuid.contains_key(u) ==> after.by_uuid[u] < 0x8000_0000_0000_0000u64,
    ensures
        after.refs_of(uuid) == shifted(
            s.refs_of(uuid),
            after.held_for(key, uuid) - s.held_for(key, uuid),
        ),
        after.indirects == s.indirects.insert(
            key,
            IndirectView {
                resolved_uuid: choice,
                state: IndirectHandleState::Resolved,
                ..s.indirects[key]
            },
        ),
        match choice {
            Some(bound) => {
                &&& after.by_uuid.contains_key(bound.0)
                &&& after.loads.contains_key(after.by_uuid[bound.0])
                &&& after.loads[after.by_uuid[bound.0]].asset_id == bound
                &&& after.table == s.table.insert(key, after.by_uuid[bound.0])
            },
            None => after.by_uuid == s.by_uuid && after.table == s.table.remove(key),
        },
        s.by_uuid.contains_key(uuid) ==> after.by_uuid.contains_key(uuid) && after.by_uuid[uuid]
            == s.by_uuid[uuid] && after.loads[s.by_uuid[uuid]] == (LoadView {
            refs: after.loads[s.by_uuid[uuid]].refs,
            ..s.loads[s.by_uuid[uuid]]
        }),
{
    let n = s.indirects[key].refs;
    let fresh = after.by_uuid;
    let old_target = s.indirects[key].resolved_uuid;
    let released = match old_target {
        Some(from) => s.remove_refs(LoadHandle(s.by_uuid[from.0]), n),
        None => s,
    };
    if let Some(from) = old_target {
        assert(s.by_uuid.contains_key(from.0));
        s.lemma_remove_chain_keeps(
            LoadHandle(s.by_uuid[from.0]),
            n,
            s.indirects.dom().len() + 1,
        );
    }
    assert(released.by_uuid == s.by_uuid);
    assert forall|u: u128| #[trigger] s.by_uuid.contains_key(u) implies after.by_uuid.contains_key(
        u,
    ) && after.by_uuid[u] == s.by_uuid[u] by {}
    if let Some(from) = old_target {
        let source = s.by_uuid[from.0];
        assert(after.by_uuid.contains_key(from.0));
        law_removing_references_counts_each(s, LoadHandle(source), n);
        assert(s.loads.contains_key(source));
    }
    assert(released.covered());
    if let Some(to) = choice {
        let t = released.add_refs(to.0, n, fresh);
        assert(after.by_uuid == t.by_uuid);
        assert(t.by_uuid.contains_key(to.0));
        released.lemma_add_refs_keeps(to.0, n, fresh);
        lemma_wrapping(
            if released.by_uuid.contains_key(to.0) {
                released.loads[released.by_uuid[to.0]].refs
            } else {
                0
            },
            n,
        );
    }
    if s.by_uuid.contains_key(uuid) {
        assert(s.loads.contains_key(s.by_uuid[uuid]));
        assert(after.by_uuid.contains_key(uuid));
    }
    lemma_moves(s.refs_of(uuid), n as int);
    lemma_counts_small(s, uuid);
    lemma_counts_small(after, uuid);
    assert(after.indirects =~= s.indirects.insert(
        key,
        IndirectView {
            resolved_uuid: choice,
            state: IndirectHandleState::Resolved,
            ..s.indirects[key]
        },
    ));
}

/// When candidates for an identifier have come and the resolver chooses an asset, the identifier is
/// bound to it: the handle of the identifier then tells that asset, with as many references more as
/// the identifier is held, if it was not bound before.
pub proof fn law_bound_identifier_tells_its_references(
    s: LoaderView,
    message: ResolveMessage,
    uuid: AssetUuid,
    after: LoaderView,
)
    requires
        s.wf(),
        after.wf(),
        message.candidates is Ok,
        s.receive_candidates(message, Some(uuid), after.by_uuid) == Ok::<LoaderView, ErrorView>(
            after,
        ),
        message.handle.0 >= 0x8000_0000_0000_0000u64,
        s.indirects[message.handle.0].resolved_uuid is None,
        distinct_handles(after.by_uuid),
        forall|u: u128| #[trigger]
            after.by_uuid.contains_key(u) ==> after.by_uuid[u] < 0x8000_0000_0000_0000u64,
    ensures
        after.load_info(message.handle) matches Some(info) && {
            &&& info.asset_id == uuid
            &&& info.refs as int == shifted(
                s.refs_of(uuid.0),
                s.indirects[message.handle.0].refs as int,
            ) % 0x1_0000_0000
        },
        after.load_info(message.handle) == after.load_info(
            LoadHandle(after.by_uuid[uuid.0]),
        ),
{
    let key = message.handle.0;
    law_binding_moves_references(s, key, Some(uuid), after, uuid.0);
    let target = after.by_uuid[uuid.0];
    assert(after.leads_to(message.handle, target));
    assert(after.leads_to(LoadHandle(target), target));
    law_load_info_tells_asset_and_references(after, message.handle, target);
    law_load_info_tells_asset_and_references(after, LoadHandle(target), target);
}

/// Candidates for an identifier that could not be fetched leave it unbound or bound as it was, and
/// are needed again; that is noted, and no number of references changes.
pub proof fn law_failed_candidates_change_nothing_else(
    s: LoaderView,
    message: ResolveMessage,
    choice: Option<AssetUuid>,
    fresh: Map<u128, u64>,
)
    requires
        s.indirects.contains_key(message.handle.0),
        message.candidates is Err,
    ensures
        s.receive_candidates(message, choice, fresh) matches Ok(t) && {
            &&& t.indirects == s.indirects.insert(
                message.handle.0,
                IndirectView {
                    state: IndirectHandleState::Idle,
                    ..s.indirects[message.handle.0]
                },
            )
            &&& t.failures == s.failures.push(
                FailureView::Resolve(message.handle, message.candidates->Err_0),
            )
            &&& t == (LoaderView { indirects: t.indirects, failures: t.failures, ..s })
        },
{
}

/// A number of references that wraps around.
proof fn lemma_wrapping(refs: usize, n: usize)
    ensures
        refs.wrapping_add(n) as int == shifted(refs as int, n as int),
        refs.wrapping_sub(n) as int == shifted(refs as int, -(n as int)),
        refs + n <= usize::MAX ==> refs.wrapping_add(n) == refs + n,
        n <= refs ==> refs.wrapping_sub(n) == refs - n,
{
    let m = usize::MAX + 1;
    if refs + n <= usize::MAX {
        lemma_small_mod((refs + n) as nat, m as nat);
    } else {
        lemma_small_mod((refs + n - m) as nat, m as nat);
        lemma_mod_add_multiples_vanish(refs + n - m, m);
    }
    if n <= refs {
        lemma_small_mod((refs - n) as nat, m as nat);
    } else {
        lemma_small_mod((refs - n + m) as nat, m as nat);
        lemma_mod_add_multiples_vanish(refs - n, m);
    }
}

/// Taking references away and adding them again changes no number of references.
proof fn lemma_moves(refs: int, n: int)
    ensures
        shifted(shifted(refs, -n), n) == shifted(refs, n - n),
        shifted(refs, 0 - n) == shifted(refs, -n),
        shifted(refs, n - 0) == shifted(refs, n),
        shifted(refs, 0 - 0) == shifted(refs, 0),
{
    lemma_add_mod_noop_right(n, refs - n, usize::MAX + 1);
}

/// A number of references does not wrap around by itself.
proof fn lemma_counts_small(s: LoaderView, uuid: u128)
    ensures
        shifted(s.refs_of(uuid), 0) == s.refs_of(uuid),
{
    lemma_small_mod(s.refs_of(uuid) as nat, (usize::MAX + 1) as nat);
}

} // verus!
