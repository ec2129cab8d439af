//! The calls to the storage that are for one load.

use vstd::prelude::*;
use crate::ids::LoadHandle;
use crate::load::VersionView;
use crate::model::LoaderView;
use crate::storage::StorageCall;
use crate::load::newest;

verus! {

impl StorageCall {
    /// The load that a call is for.
    pub open spec fn handle(self) -> LoadHandle {
        match self {
            StorageCall::Update { handle, .. } => handle,
            StorageCall::Commit { handle, .. } => handle,
            StorageCall::Free { handle, .. } => handle,
        }
    }
}

/// Those of several calls that are for one load, in their order.
pub open spec fn calls_for(calls: Seq<StorageCall>, handle: LoadHandle) -> Seq<StorageCall>
    decreases calls.len(),
{
    if calls.len() == 0 {
        Seq::empty()
    } else if calls.last().handle() == handle {
        calls_for(calls.drop_last(), handle).push(calls.last())
    } else {
        calls_for(calls.drop_last(), handle)
    }
}

/// The calls for one load among calls and further calls.
pub proof fn lemma_calls_add_up(
    first: Seq<StorageCall>,
    second: Seq<StorageCall>,
    handle: LoadHandle,
)
    ensures
        calls_for(first + second, handle) == calls_for(first, handle) + calls_for(second, handle),
    decreases second.len(),
{
    let all = first + second;
    if second.len() == 0 {
        assert(all =~= first);
        assert(calls_for(first, handle) + calls_for(second, handle) =~= calls_for(first, handle));
    } else {
        assert(all.drop_last() =~= first + second.drop_last());
        assert(all.last() == second.last());
        lemma_calls_add_up(first, second.drop_last(), handle);
        if second.last().handle() == handle {
            assert(calls_for(all, handle) =~= calls_for(first, handle) + calls_for(second, handle));
        }
    }
}

/// If all calls are for one load, they are its calls; and they are none of another load.
pub proof fn lemma_calls_of_one(calls: Seq<StorageCall>, own: LoadHandle, handle: LoadHandle)
    requires
        forall|i: int| 0 <= i < calls.len() ==> (#[trigger] calls[i]).handle() == own,
    ensures
        own == handle ==> calls_for(calls, handle) == calls,
        own != handle ==> calls_for(calls, handle) == Seq::<StorageCall>::empty(),
    decreases calls.len(),
{
    if calls.len() > 0 {
        let init = calls.drop_last();
        assert(calls[calls.len() - 1] == calls.last());
        assert forall|i: int| 0 <= i < init.len() implies (#[trigger] init[i]).handle() == own by {
            assert(init[i] == calls[i]);
        }
        lemma_calls_of_one(init, own, handle);
        assert(init.push(calls.last()) =~= calls);
    } else {
        assert(calls =~= Seq::empty());
    }
}

/// The steps of the versions of a load call the storage for that load only.
pub proof fn lemma_steps_call_for_own_load(
    s: LoaderView,
    key: u64,
    has_refs: bool,
    newest: u32,
    versions: Seq<VersionView>,
    fresh: Map<u128, u64>,
)
    ensures
        s.step_versions(key, has_refs, newest, versions, fresh) matches Ok(p) ==> forall|i: int|
            0 <= i < p.calls.len() ==> (#[trigger] p.calls[i]).handle() == LoadHandle(key),
    decreases versions.len(),
{
    if versions.len() > 0 {
        lemma_steps_call_for_own_load(s, key, has_refs, newest, versions.drop_last(), fresh);
        if let Ok(p) = s.step_versions(key, has_refs, newest, versions.drop_last(), fresh) {
            if let Ok(q) = p.loader.step_version(key, has_refs, newest, versions.last(), fresh) {
                let calls = p.calls + q.calls;
                assert forall|i: int| 0 <= i < calls.len() implies (#[trigger] calls[i]).handle()
                    == LoadHandle(key) by {
                    if i < p.calls.len() {
                        assert(calls[i] == p.calls[i]);
                    } else {
                        assert(calls[i] == q.calls[i - p.calls.len()]);
                    }
                }
            }
        }
    }
}

/// The step of a load calls the storage for that load only.
pub proof fn lemma_step_calls_for_own_load(
    s: LoaderView,
    key: u64,
    fresh: Map<u128, u64>,
    handle: LoadHandle,
)
    ensures
        s.step_load(key, fresh) matches Ok((t, calls)) ==> {
            &&& handle == LoadHandle(key) ==> calls_for(calls, handle) == calls
            &&& handle != LoadHandle(key) ==> calls_for(calls, handle) == Seq::<
                StorageCall,
            >::empty()
        },
{
    let started = s.started(key);
    let begun = s.with_load(key, started);
    let has_refs = s.loads[key].refs > 0;
    let n = newest(started.versions);
    lemma_steps_call_for_own_load(begun, key, has_refs, n, started.versions, fresh);
    if let Ok((t, calls)) = s.step_load(key, fresh) {
        lemma_calls_of_one(calls, LoadHandle(key), handle);
    }
}

/// In a pass, the calls for a load are those of its own step.
pub proof fn lemma_pass_calls(s: LoaderView, keys: Seq<u64>, fresh: Map<u128, u64>, k: int)
    requires
        keys.no_duplicates(),
        0 <= k < keys.len(),
        s.step_loads(keys, fresh) is Ok,
    ensures
        ({
            let calls = (s.step_loads(keys, fresh)->Ok_0).1;
            let found = (s.step_loads(keys.take(k), fresh)->Ok_0).0;
            &&& s.step_loads(keys.take(k), fresh) is Ok
            &&& found.step_load(keys[k], fresh) is Ok
            &&& calls_for(calls, LoadHandle(keys[k])) == (found.step_load(keys[k], fresh)->Ok_0).1
        }),
    decreases keys.len(),
{
    let init = keys.drop_last();
    let key = keys[k];
    let handle = LoadHandle(key);
    let (mid, some) = s.step_loads(init, fresh)->Ok_0;
    let more = (mid.step_load(keys.last(), fresh)->Ok_0).1;
    lemma_calls_add_up(some, more, handle);
    lemma_step_calls_for_own_load(mid, keys.last(), fresh, handle);
    assert(keys[keys.len() - 1] == keys.last());
    if k == keys.len() - 1 {
        assert(keys.take(k) =~= init);
        assert(!init.contains(key)) by {
            if init.contains(key) {
                let j = choose|j: int| 0 <= j < init.len() && init[j] == key;
                assert(keys[j] == keys[k]);
            }
        }
        lemma_pass_calls_none(s, init, fresh, key);
        assert(Seq::<StorageCall>::empty() + more =~= more);
    } else {
        assert(init[k] == key);
        assert(init.take(k) =~= keys.take(k));
        assert(init.no_duplicates());
        lemma_pass_calls(s, init, fresh, k);
        assert(keys[k] != keys[keys.len() - 1]);
        let own = calls_for(some, handle);
        assert(own + Seq::<StorageCall>::empty() =~= own);
    }
}

/// A pass makes no calls for a load that it does not come to.
proof fn lemma_pass_calls_none(s: LoaderView, keys: Seq<u64>, fresh: Map<u128, u64>, key: u64)
    requires
        !keys.contains(key),
        s.step_loads(keys, fresh) is Ok,
    ensures
        calls_for((s.step_loads(keys, fresh)->Ok_0).1, LoadHandle(key)) == Seq::<
            StorageCall,
        >::empty(),
    decreases keys.len(),
{
    if keys.len() > 0 {
        let init = keys.drop_last();
        let (mid, some) = s.step_loads(init, fresh)->Ok_0;
        let more = (mid.step_load(keys.last(), fresh)->Ok_0).1;
        assert(keys[keys.len() - 1] == keys.last());
        assert(!init.contains(key)) by {
            if init.contains(key) {
                let j = choose|j: int| 0 <= j < init.len() && init[j] == key;
                assert(keys[j] == key);
            }
        }
        lemma_pass_calls_none(s, init, fresh, key);
        lemma_calls_add_up(some, more, LoadHandle(key));
        lemma_step_calls_for_own_load(mid, keys.last(), fresh, LoadHandle(key));
        assert(Seq::<StorageCall>::empty() + Seq::<StorageCall>::empty()
            =~= Seq::<StorageCall>::empty());
    }
}

} // verus!
