//! References to assets and to identifiers, and what they leave behind.

use vstd::prelude::*;
use crate::ids::{AssetUuid, LoadHandle};
use crate::model::LoaderView;
use crate::model::{direct_handles, distinct_handles};
use crate::resolve_requests::ResolveMessage;
use crate::storage::{LoadInfo, LoadStatus};

verus! {

/// A loader to which nothing has happened knows no asset: nothing is requested, and no indirect
/// handle is resolved.
pub proof fn law_new_loader_knows_nothing(load: LoadHandle)
    ensures
        LoaderView::empty().wf(),
        LoaderView::empty().load_of(load) is None,
        LoaderView::empty().status(load) == (if load.indirect() {
            LoadStatus::Unresolved
        } else {
            LoadStatus::NotRequested
        }),
{
}

/// Once an asset has a load, referencing it again gives the same load, whatever the allocator would
/// give out, and makes no other.
pub proof fn law_reference_keeps_load(
    s: LoaderView,
    uuid: u128,
    n: usize,
    m: usize,
    first: Map<u128, u64>,
    second: Map<u128, u64>,
)
    ensures
        s.add_refs(uuid, n, first).by_uuid.contains_key(uuid),
        s.add_refs(uuid, n, first).add_refs(uuid, m, second).by_uuid == s.add_refs(
            uuid,
            n,
            first,
        ).by_uuid,
        s.add_refs(uuid, n, first).add_refs(uuid, m, second).loads.dom() =~= s.add_refs(
            uuid,
            n,
            first,
        ).loads.dom(),
{
}

/// Referencing an asset leaves every other load, every indirect reference and every pending reload
/// as it is.
pub proof fn law_reference_touches_one_load(
    s: LoaderView,
    uuid: u128,
    n: usize,
    fresh: Map<u128, u64>,
    key: u64,
)
    requires
        key != s.add_refs(uuid, n, fresh).by_uuid[uuid],
    ensures
        s.add_refs(uuid, n, fresh).loads.contains_key(key) == s.loads.contains_key(key),
        s.add_refs(uuid, n, fresh).loads[key] == s.loads[key],
        s.add_refs(uuid, n, fresh).indirects == s.indirects,
        s.add_refs(uuid, n, fresh).table == s.table,
        s.add_refs(uuid, n, fresh).pending_reloads == s.pending_reloads,
{
}

/// Outside of a pass, only referencing an asset makes a load for it: removing references, further
/// references to identifiers and invalidating assets make none.
pub proof fn law_only_add_ref_makes_loads(
    s: LoaderView,
    load: LoadHandle,
    n: usize,
    indirect: u64,
    assets: Seq<u128>,
)
    requires
        s.wf(),
    ensures
        s.remove_refs(load, n).by_uuid == s.by_uuid,
        s.indirects.contains_key(indirect) ==> s.add_ref_indirect(indirect).by_uuid == s.by_uuid,
        s.invalidate(assets).by_uuid == s.by_uuid,
{
    s.lemma_remove_chain_keeps(load, n, s.indirects.dom().len() + 1);
}

/// Removing references from an asset whose handle is direct undoes adding them. All that remains is
/// the load, if the asset had none before.
pub proof fn law_remove_undoes_add(s: LoaderView, uuid: u128, n: usize, fresh: Map<u128, u64>)
    requires
        s.wf(),
        direct_handles(s.get_or_insert(uuid, fresh).by_uuid),
    ensures
        s.add_refs(uuid, n, fresh).remove_refs(
            LoadHandle(s.add_refs(uuid, n, fresh).by_uuid[uuid]),
            n,
        ) == s.get_or_insert(uuid, fresh),
{
    let before = s.get_or_insert(uuid, fresh);
    let after = s.add_refs(uuid, n, fresh);
    let key = after.by_uuid[uuid];
    assert(before.by_uuid.contains_key(uuid));
    assert(before.loads.contains_key(key));
    assert(before.loads[key].refs_added(n).refs_removed(n) == before.loads[key]);
    after.lemma_remove_direct(LoadHandle(key), n);
    assert(after.remove_refs(LoadHandle(key), n) =~= before);
}

/// What a caller does to the references to assets.
pub enum RefOp {
    Add(u128),
    Remove(LoadHandle),
}

/// How often an asset is referenced by several operations.
pub open spec fn times_added(ops: Seq<RefOp>, uuid: u128) -> int
    decreases ops.len(),
{
    if ops.len() == 0 {
        0
    } else {
        times_added(ops.drop_last(), uuid) + (if ops.last() == RefOp::Add(uuid) {
            1int
        } else {
            0
        })
    }
}

/// How often a reference is removed from a handle by several operations.
pub open spec fn times_removed(ops: Seq<RefOp>, load: LoadHandle) -> int
    decreases ops.len(),
{
    if ops.len() == 0 {
        0
    } else {
        times_removed(ops.drop_last(), load) + (if ops.last() == RefOp::Remove(load) {
            1int
        } else {
            0
        })
    }
}

/// Every asset that is referenced has a handle.
pub open spec fn all_have_handles(ops: Seq<RefOp>, fresh: Map<u128, u64>) -> bool {
    forall|i: int, uuid: u128|
        0 <= i < ops.len() && #[trigger] ops[i] == RefOp::Add(uuid) ==> #[trigger] fresh.contains_key(
            uuid,
        )
}

/// From the first of several operations on, references are never removed from a handle more often
/// than its asset was referenced.
pub open spec fn covered_by_additions(ops: Seq<RefOp>, uuid: u128, load: LoadHandle) -> bool {
    forall|i: int|
        0 <= i <= ops.len() ==> times_removed(#[trigger] ops.take(i), load) <= times_added(
            ops.take(i),
            uuid,
        )
}

impl LoaderView {
    /// The state after several operations on references, where `fresh` holds the handles that the
    /// allocator gives out.
    pub open spec fn after_refs(self, ops: Seq<RefOp>, fresh: Map<u128, u64>) -> LoaderView
        decreases ops.len(),
    {
        if ops.len() == 0 {
            self
        } else {
            let s = self.after_refs(ops.drop_last(), fresh);
            match ops.last() {
                RefOp::Add(uuid) => s.add_refs(uuid, 1, fresh),
                RefOp::Remove(load) => s.remove_refs(load, 1),
            }
        }
    }
}

/// Once an asset of a new loader was referenced, its load has as many references as were added and
/// not removed, also if that is none. No two assets share a handle, that of the asset is direct,
/// and no reference is removed that was not added.
pub proof fn law_references_are_counted(ops: Seq<RefOp>, fresh: Map<u128, u64>, uuid: u128)
    requires
        distinct_handles(fresh),
        all_have_handles(ops, fresh),
        fresh.contains_key(uuid),
        !LoadHandle(fresh[uuid]).indirect(),
        covered_by_additions(ops, uuid, LoadHandle(fresh[uuid])),
        1 <= times_added(ops, uuid) <= u32::MAX,
    ensures
        LoaderView::empty().after_refs(ops, fresh).load_info(LoadHandle(fresh[uuid])) == Some(
            LoadInfo {
                asset_id: AssetUuid(uuid),
                refs: (times_added(ops, uuid) - times_removed(
                    ops,
                    LoadHandle(fresh[uuid]),
                )) as u32,
            },
        ),
{
    lemma_references_counted(ops, fresh, uuid);
}

proof fn lemma_references_counted(ops: Seq<RefOp>, fresh: Map<u128, u64>, uuid: u128)
    requires
        distinct_handles(fresh),
        all_have_handles(ops, fresh),
        fresh.contains_key(uuid),
        !LoadHandle(fresh[uuid]).indirect(),
        covered_by_additions(ops, uuid, LoadHandle(fresh[uuid])),
        times_added(ops, uuid) <= u32::MAX,
    ensures
        ({
            let s = LoaderView::empty().after_refs(ops, fresh);
            let key = fresh[uuid];
            let left = times_added(ops, uuid) - times_removed(ops, LoadHandle(key));
            &&& s.indirects == LoaderView::empty().indirects
            &&& forall|other: u128| #[trigger]
                s.by_uuid.contains_key(other) ==> fresh.contains_key(other) && s.by_uuid[other]
                    == fresh[other]
            &&& 0 <= times_removed(ops, LoadHandle(key)) && 0 <= left
            &&& s.by_uuid.contains_key(uuid) == (times_added(ops, uuid) > 0)
            &&& s.by_uuid.contains_key(uuid) ==> {
                &&& s.loads.contains_key(key)
                &&& s.loads[key].asset_id == AssetUuid(uuid)
                &&& s.loads[key].refs == left
            }
        }),
    decreases ops.len(),
{
    let key = fresh[uuid];
    assert(ops.take(ops.len() as int) =~= ops);
    if ops.len() > 0 {
        let init = ops.drop_last();
        assert(ops[ops.len() - 1] == ops.last());
        assert forall|i: int, other: u128|
            0 <= i < init.len() && #[trigger] init[i] == RefOp::Add(other) implies #[trigger]
        fresh.contains_key(other) by {
            assert(ops[i] == RefOp::Add(other));
        }
        assert forall|i: int| 0 <= i <= init.len() implies times_removed(
            #[trigger] init.take(i),
            LoadHandle(key),
        ) <= times_added(init.take(i), uuid) by {
            assert(init.take(i) =~= ops.take(i));
        }
        lemma_references_counted(init, fresh, uuid);
        let s = LoaderView::empty().after_refs(init, fresh);
        match ops.last() {
            RefOp::Add(other) => {
                assert(fresh.contains_key(other));
                if other != uuid {
                    assert(fresh[other] != key);
                }
            },
            RefOp::Remove(load) => {
                if load.indirect() {
                    assert(!s.indirects.contains_key(load.0));
                }
            },
        }
    }
}

/// Removing a reference from an identifier undoes adding one, whether or not the identifier is
/// resolved, as long as the handles of assets are direct.
pub proof fn law_remove_undoes_add_indirect(s: LoaderView, key: u64)
    requires
        s.wf(),
        direct_handles(s.by_uuid),
        s.indirects.contains_key(key),
        LoadHandle(key).indirect(),
    ensures
        s.add_ref_indirect(key).remove_refs(LoadHandle(key), 1) == s,
{
    let indirect = s.indirects[key];
    let t = s.add_ref_indirect(key);
    assert(indirect.refs_added(1).refs_removed(1) == indirect);
    if let Some(uuid) = indirect.resolved_uuid {
        let target = s.by_uuid[uuid.0];
        assert(s.by_uuid.contains_key(uuid.0));
        assert(s.loads[target].refs_added(1).refs_removed(1) == s.loads[target]);
        t.lemma_remove_direct(LoadHandle(target), 1);
        let released = t.remove_chain(LoadHandle(target), 1, t.indirects.dom().len());
        assert(released.loads =~= s.loads);
        assert(t.remove_refs(LoadHandle(key), 1) == released.with_indirect(key, indirect));
    }
    assert(t.remove_refs(LoadHandle(key), 1) =~= s);
}

/// An indirect handle that is resolved stands for the load of the asset that its identifier is
/// bound to; one that is in no table has no load.
pub proof fn law_indirect_handle_stands_for_asset(s: LoaderView, load: LoadHandle)
    requires
        s.wf(),
        direct_handles(s.by_uuid),
        load.indirect(),
    ensures
        s.indirects.contains_key(load.0) ==> (s.indirects[load.0].resolved_uuid matches Some(uuid)
            ==> {
            &&& s.load_of(load) == Some(s.loads[s.by_uuid[uuid.0]])
            &&& s.status(load) == s.status(LoadHandle(s.by_uuid[uuid.0]))
        }),
        !s.table.contains_key(load.0) ==> s.load_of(load) is None && s.status(load)
            == LoadStatus::Unresolved,
{
    if s.indirects.contains_key(load.0) {
        if let Some(uuid) = s.indirects[load.0].resolved_uuid {
            assert(s.by_uuid.contains_key(uuid.0));
        }
    }
}

/// Binding an identifier for the first time references the asset as often as the identifier is
/// held; unbinding it gives these references up.
pub proof fn law_binding_takes_references(
    s: LoaderView,
    key: u64,
    uuid: AssetUuid,
    fresh: Map<u128, u64>,
)
    requires
        s.wf(),
        direct_handles(s.get_or_insert(uuid.0, fresh).by_uuid),
        s.indirects.contains_key(key),
        s.indirects[key].resolved_uuid is None,
    ensures
        s.bind(key, Some(uuid), fresh).loads == s.add_refs(
            uuid.0,
            s.indirects[key].refs,
            fresh,
        ).loads,
        s.bind(key, Some(uuid), fresh).bind(key, None, fresh).loads == s.get_or_insert(
            uuid.0,
            fresh,
        ).loads,
        !s.bind(key, Some(uuid), fresh).bind(key, None, fresh).table.contains_key(key),
{
    let n = s.indirects[key].refs;
    let before = s.get_or_insert(uuid.0, fresh);
    let target = before.by_uuid[uuid.0];
    assert(before.by_uuid.contains_key(uuid.0));
    assert(before.loads.contains_key(target));
    assert(before.loads[target].refs_added(n).refs_removed(n) == before.loads[target]);
    s.bind(key, Some(uuid), fresh).lemma_remove_direct(LoadHandle(target), n);
    assert(s.bind(key, Some(uuid), fresh).bind(key, None, fresh).loads =~= before.loads);
}

/// Binding an identifier to another asset takes the references that it holds from the one asset to
/// the other, and binding it back undoes that.
pub proof fn law_rebinding_moves_references(
    s: LoaderView,
    key: u64,
    from: AssetUuid,
    to: AssetUuid,
    fresh: Map<u128, u64>,
)
    requires
        s.wf(),
        direct_handles(s.by_uuid),
        s.indirects.contains_key(key),
        s.indirects[key].resolved_uuid == Some(from),
        s.by_uuid.contains_key(to.0),
        s.by_uuid[from.0] != s.by_uuid[to.0],
    ensures
        s.bind(key, Some(to), fresh).loads == s.loads.insert(
            s.by_uuid[from.0],
            s.loads[s.by_uuid[from.0]].refs_removed(s.indirects[key].refs),
        ).insert(
            s.by_uuid[to.0],
            s.loads[s.by_uuid[to.0]].refs_added(s.indirects[key].refs),
        ),
        s.bind(key, Some(to), fresh).resolve(LoadHandle(key)) == (if LoadHandle(key).indirect() {
            Some(s.by_uuid[to.0])
        } else {
            Some(key)
        }),
        s.bind(key, Some(to), fresh).bind(key, Some(from), fresh).loads == s.loads,
        s.bind(key, Some(to), fresh).bind(key, Some(from), fresh).table == s.table,
{
    let n = s.indirects[key].refs;
    let a = s.by_uuid[from.0];
    let b = s.by_uuid[to.0];
    assert(s.by_uuid.contains_key(from.0));
    assert(s.loads.contains_key(a) && s.loads.contains_key(b));
    let bound = s.bind(key, Some(to), fresh);
    assert(bound.loads =~= s.loads.insert(a, s.loads[a].refs_removed(n)).insert(
        b,
        s.loads[b].refs_added(n),
    ));
    assert(s.loads[a].refs_removed(n).refs_added(n) == s.loads[a]);
    assert(s.loads[b].refs_added(n).refs_removed(n) == s.loads[b]);
    assert(bound.bind(key, Some(from), fresh).loads =~= s.loads);
    assert(bound.bind(key, Some(from), fresh).table =~= s.table);
}

/// An identifier that is held and not bound gets its candidates asked for in the next pass,
/// whatever the order in which the identifiers are seen to; and if that fails, in the pass after.
pub proof fn law_held_identifier_is_asked_for(s: LoaderView, keys: Seq<u64>, key: u64)
    requires
        s.indirects.contains_key(key),
        s.indirects[key].state is Idle,
        s.indirects[key].refs > 0,
        keys.to_set() == s.indirects.dom(),
    ensures
        s.step_indirects().candidates_wanted(keys).contains(
            (s.indirects[key].id, LoadHandle(key)),
        ),
        s.step_indirects().candidates_requested().indirects[key].state is RequestingMetadata,
        forall|message: ResolveMessage, choice: Option<AssetUuid>, fresh: Map<u128, u64>|
            message.handle == LoadHandle(key) && message.candidates is Err ==> (
            #[trigger] s.step_indirects().candidates_requested().receive_candidates(
                message,
                choice,
                fresh,
            ) matches Ok(after) && after.indirects[key] == s.indirects[key]),
{
    let stepped = s.step_indirects();
    assert(keys.to_set().contains(key));
    lemma_candidates_wanted(stepped, keys, key);
    assert(stepped.indirects[key].id == s.indirects[key].id);
    let requested = stepped.candidates_requested();
    assert(requested.indirects.contains_key(key));
}

/// An identifier whose candidates are needed is among those that are asked for.
proof fn lemma_candidates_wanted(s: LoaderView, keys: Seq<u64>, key: u64)
    requires
        keys.contains(key),
        s.indirects[key].state is WaitingForMetadata,
    ensures
        s.candidates_wanted(keys).contains((s.indirects[key].id, LoadHandle(key))),
    decreases keys.len(),
{
    let init = keys.drop_last();
    let wanted = (s.indirects[key].id, LoadHandle(key));
    let k = choose|k: int| 0 <= k < keys.len() && keys[k] == key;
    if k < init.len() {
        assert(init[k] == key);
        lemma_candidates_wanted(s, init, key);
        let j = choose|j: int|
            0 <= j < s.candidates_wanted(init).len() && s.candidates_wanted(init)[j] == wanted;
        assert(s.candidates_wanted(keys)[j] == wanted);
    } else {
        assert(s.candidates_wanted(keys)[s.candidates_wanted(keys).len() - 1] == wanted);
    }
}

} // verus!
