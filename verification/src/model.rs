//! The mathematical model of the loader's state, and the steps that the loader takes on it.
//!
//! A step that makes new loads takes the map `fresh`, which gives the handle number of the load of
//! each asset that had none. Handles come from an allocator, so which number is new is not up to
//! the loader; but an asset keeps the load it got, so the handle numbers of the state after a step
//! are such a map.

use vstd::prelude::*;
use crate::error::{ErrorView, FailureView, LoaderError};
use crate::ids::{AssetUuid, LoadHandle};
use crate::indirect::IndirectView;
use crate::load::{LoadView, VersionQuery};
use crate::load::position;
use crate::storage::StorageCall;

verus! {

/// Every handle that one map gives is given by the other one too.
pub open spec fn part_of(part: Map<u128, u64>, whole: Map<u128, u64>) -> bool {
    forall|uuid: u128| #[trigger]
        part.contains_key(uuid) ==> whole.contains_key(uuid) && whole[uuid] == part[uuid]
}

/// No two assets share a handle. It is so as long as the allocator gives out each handle once.
pub open spec fn distinct_handles(by_uuid: Map<u128, u64>) -> bool {
    forall|a: u128, b: u128|
        #![trigger by_uuid.contains_key(a), by_uuid.contains_key(b)]
        by_uuid.contains_key(a) && by_uuid.contains_key(b) && by_uuid[a] == by_uuid[b] ==> a == b
}

/// If no two assets share a handle, this holds of any part of the handles too.
pub proof fn lemma_part_distinct(part: Map<u128, u64>, whole: Map<u128, u64>)
    requires
        part_of(part, whole),
        distinct_handles(whole),
    ensures
        distinct_handles(part),
{
    assert forall|a: u128, b: u128|
        #![trigger part.contains_key(a), part.contains_key(b)]
        part.contains_key(a) && part.contains_key(b) && part[a] == part[b] implies a == b by {
        assert(whole.contains_key(a) && whole.contains_key(b));
    }
}

/// Every load keeps its versions in the order of their numbers.
pub open spec fn all_numbered(loads: Map<u64, LoadView>) -> bool {
    forall|key: u64| #[trigger] loads.contains_key(key) ==> loads[key].numbered()
}

/// What an operation came to: what is there after it, or the error that ended it.
pub open spec fn outcome<A>(r: Result<(), LoaderError>, after: A) -> Result<A, ErrorView> {
    match r {
        Ok(_) => Ok(after),
        Err(error) => Err(error@),
    }
}

/// The error of an operation, if it failed.
pub open spec fn error_of(r: Result<(), LoaderError>) -> Option<ErrorView> {
    match r {
        Ok(_) => None,
        Err(error) => Some(error@),
    }
}

/// An error that ended an operation, and the calls made to the storage until then.
pub struct Stop {
    pub error: ErrorView,
    pub calls: Seq<StorageCall>,
}

impl Stop {
    /// An error before any call.
    pub open spec fn at_once(error: ErrorView) -> Stop {
        Stop { error, calls: Seq::empty() }
    }

    /// An error after further calls.
    pub open spec fn after(self, calls: Seq<StorageCall>) -> Stop {
        Stop { calls: calls + self.calls, ..self }
    }
}

/// An operation came to what a step comes to: to its state or its error, with the calls that it
/// makes appended to the record of the storage's calls.
pub open spec fn came_to(
    step: Result<(LoaderView, Seq<StorageCall>), Stop>,
    log: Seq<StorageCall>,
    after_log: Seq<StorageCall>,
    out: Result<LoaderView, ErrorView>,
) -> bool {
    match step {
        Ok((after, calls)) => out == Ok::<LoaderView, ErrorView>(after) && after_log == log + calls,
        Err(stop) => out == Err::<LoaderView, ErrorView>(stop.error) && after_log == log
            + stop.calls,
    }
}

/// No handle was given out twice, not even once with and once without the indirect mark.
pub open spec fn given_once(given: Seq<LoadHandle>) -> bool {
    forall|i: int, j: int|
        0 <= i < j < given.len() ==> (#[trigger] given[i]).as_indirect() != (
        #[trigger] given[j]).as_indirect()
}

/// No two identifiers share a handle.
pub open spec fn distinct_identifiers(by_identifier: Map<(Seq<char>, Option<u128>), u64>) -> bool {
    forall|a: (Seq<char>, Option<u128>), b: (Seq<char>, Option<u128>)|
        #![trigger by_identifier.contains_key(a), by_identifier.contains_key(b)]
        by_identifier.contains_key(a) && by_identifier.contains_key(b) && by_identifier[a]
            == by_identifier[b] ==> a == b
}

/// A handle was given out, with or without the indirect mark.
pub open spec fn was_given(given: Seq<LoadHandle>, handle: LoadHandle) -> bool {
    exists|i: int| 0 <= i < given.len() && (#[trigger] given[i]).as_indirect() == handle.as_indirect()
}

/// Every handle in use was given out, those of identifiers up to the mark. If no handle was given
/// out twice, then no two assets share a handle, nor do two identifiers, nor does an asset share
/// one with an identifier.
pub open spec fn handles_wf(
    given: Seq<LoadHandle>,
    by_uuid: Map<u128, u64>,
    by_identifier: Map<(Seq<char>, Option<u128>), u64>,
) -> bool {
    &&& forall|uuid: u128| #[trigger]
        by_uuid.contains_key(uuid) ==> given.contains(LoadHandle(by_uuid[uuid]))
    &&& forall|id: (Seq<char>, Option<u128>)| #[trigger]
        by_identifier.contains_key(id) ==> was_given(given, LoadHandle(by_identifier[id]))
    &&& given_once(given) ==> {
        &&& distinct_handles(by_uuid)
        &&& distinct_identifiers(by_identifier)
        &&& forall|uuid: u128, id: (Seq<char>, Option<u128>)|
            #![trigger by_uuid.contains_key(uuid), by_identifier.contains_key(id)]
            by_uuid.contains_key(uuid) && by_identifier.contains_key(id) ==> by_uuid[uuid]
                != by_identifier[id]
    }
}

/// What was given out stays so.
pub proof fn lemma_was_given_push(given: Seq<LoadHandle>, next: LoadHandle, handle: LoadHandle)
    ensures
        given.contains(handle) ==> given.push(next).contains(handle) && was_given(given, handle),
        was_given(given, handle) ==> was_given(given.push(next), handle),
        handle.as_indirect() == next.as_indirect() ==> was_given(given.push(next), handle),
        given_once(given.push(next)) && was_given(given, handle) ==> given_once(given)
            && handle.as_indirect() != next.as_indirect(),
        given_once(given.push(next)) ==> given_once(given),
{
    let more = given.push(next);
    assert(more[given.len() as int] == next);
    if given.contains(handle) {
        let i = choose|i: int| 0 <= i < given.len() && given[i] == handle;
        assert(more[i] == handle && given[i].as_indirect() == handle.as_indirect());
    }
    if was_given(given, handle) {
        let i = choose|i: int|
            0 <= i < given.len() && (#[trigger] given[i]).as_indirect() == handle.as_indirect();
        assert(more[i] == given[i]);
        if given_once(more) {
            assert(more[i].as_indirect() != more[given.len() as int].as_indirect());
        }
    }
    if given_once(more) {
        assert forall|i: int, j: int| 0 <= i < j < given.len() implies (
        #[trigger] given[i]).as_indirect() != (#[trigger] given[j]).as_indirect() by {
            assert(more[i] == given[i] && more[j] == given[j]);
        }
    }
}

/// The handles in use stay well-formed when an asset gets a handle that was given out just now.
pub proof fn lemma_handles_new_load(
    given: Seq<LoadHandle>,
    by_uuid: Map<u128, u64>,
    by_identifier: Map<(Seq<char>, Option<u128>), u64>,
    uuid: u128,
    next: LoadHandle,
)
    requires
        handles_wf(given, by_uuid, by_identifier),
    ensures
        handles_wf(given.push(next), by_uuid.insert(uuid, next.0), by_identifier),
{
    let more = by_uuid.insert(uuid, next.0);
    lemma_was_given_push(given, next, next);
    assert forall|u: u128| #[trigger] more.contains_key(u) implies given.push(next).contains(
        LoadHandle(more[u]),
    ) by {
        if u != uuid {
            assert(by_uuid.contains_key(u));
            lemma_was_given_push(given, next, LoadHandle(by_uuid[u]));
        } else {
            assert(given.push(next)[given.len() as int] == next);
        }
    }
    assert forall|id: (Seq<char>, Option<u128>)| #[trigger]
        by_identifier.contains_key(id) implies was_given(
        given.push(next),
        LoadHandle(by_identifier[id]),
    ) by {
        lemma_was_given_push(given, next, LoadHandle(by_identifier[id]));
    }
    if given_once(given.push(next)) {
        assert forall|u: u128| by_uuid.contains_key(u) implies #[trigger] by_uuid[u] != next.0 by {
            lemma_was_given_push(given, next, LoadHandle(by_uuid[u]));
        }
        assert forall|id: (Seq<char>, Option<u128>)|
            by_identifier.contains_key(id) implies #[trigger] by_identifier[id] != next.0 by {
            lemma_was_given_push(given, next, LoadHandle(by_identifier[id]));
        }
        assert forall|a: u128, b: u128|
            #![trigger more.contains_key(a), more.contains_key(b)]
            more.contains_key(a) && more.contains_key(b) && more[a] == more[b] implies a == b by {
            if a != uuid && b != uuid {
                assert(by_uuid.contains_key(a) && by_uuid.contains_key(b));
            }
        }
        assert forall|u: u128, id: (Seq<char>, Option<u128>)|
            #![trigger more.contains_key(u), by_identifier.contains_key(id)]
            more.contains_key(u) && by_identifier.contains_key(id) implies more[u]
            != by_identifier[id] by {
            if u != uuid {
                assert(by_uuid.contains_key(u));
            }
        }
    }
}

/// The handles in use stay well-formed when an identifier gets a handle that was given out just
/// now.
pub proof fn lemma_handles_new_indirect(
    given: Seq<LoadHandle>,
    by_uuid: Map<u128, u64>,
    by_identifier: Map<(Seq<char>, Option<u128>), u64>,
    id: (Seq<char>, Option<u128>),
    next: LoadHandle,
)
    requires
        handles_wf(given, by_uuid, by_identifier),
    ensures
        handles_wf(given.push(next), by_uuid, by_identifier.insert(id, next.as_indirect().0)),
{
    let key = next.as_indirect().0;
    let more = by_identifier.insert(id, key);
    lemma_was_given_push(given, next, next);
    lemma_was_given_push(given, next, next.as_indirect());
    assert forall|u: u128| #[trigger] by_uuid.contains_key(u) implies given.push(next).contains(
        LoadHandle(by_uuid[u]),
    ) by {
        lemma_was_given_push(given, next, LoadHandle(by_uuid[u]));
    }
    assert forall|other: (Seq<char>, Option<u128>)| #[trigger]
        more.contains_key(other) implies was_given(given.push(next), LoadHandle(more[other])) by {
        if other != id {
            assert(by_identifier.contains_key(other));
            lemma_was_given_push(given, next, LoadHandle(by_identifier[other]));
        }
    }
    if given_once(given.push(next)) {
        assert forall|u: u128| by_uuid.contains_key(u) implies #[trigger] by_uuid[u] != key by {
            lemma_was_given_push(given, next, LoadHandle(by_uuid[u]));
        }
        assert forall|other: (Seq<char>, Option<u128>)|
            by_identifier.contains_key(other) implies #[trigger] by_identifier[other] != key by {
            lemma_was_given_push(given, next, LoadHandle(by_identifier[other]));
        }
        assert forall|a: (Seq<char>, Option<u128>), b: (Seq<char>, Option<u128>)|
            #![trigger more.contains_key(a), more.contains_key(b)]
            more.contains_key(a) && more.contains_key(b) && more[a] == more[b] implies a == b by {
            if a != id && b != id {
                assert(by_identifier.contains_key(a) && by_identifier.contains_key(b));
            }
        }
        assert forall|u: u128, other: (Seq<char>, Option<u128>)|
            #![trigger by_uuid.contains_key(u), more.contains_key(other)]
            by_uuid.contains_key(u) && more.contains_key(other) implies by_uuid[u]
            != more[other] by {
            if other != id {
                assert(by_identifier.contains_key(other));
            }
        }
    }
}

/// The handles of all assets are direct. It is so as long as the allocator gives out direct
/// handles.
pub open spec fn direct_handles(by_uuid: Map<u128, u64>) -> bool {
    forall|uuid: u128| #[trigger]
        by_uuid.contains_key(uuid) ==> !LoadHandle(by_uuid[uuid]).indirect()
}

/// A reload of an asset that has been asked for and has not come into use.
#[derive(Copy, Clone, PartialEq, Eq, Structural, Debug)]
pub struct PendingReload {
    /// The asset.
    pub asset_id: AssetUuid,
    /// The newest version when the reload was asked for.
    pub version_before: u32,
}

/// No two reloads are of the same asset.
pub open spec fn distinct_reloads(reloads: Seq<PendingReload>) -> bool {
    forall|i: int, j: int|
        0 <= i < j < reloads.len() ==> (#[trigger] reloads[i]).asset_id != (
        #[trigger] reloads[j]).asset_id
}

/// What a loader keeps. Handles and assets are given by their numbers.
#[verifier::ext_equal]
pub struct LoaderView {
    /// The loads, by their handles.
    pub loads: Map<u64, LoadView>,
    /// The handle of the load of each asset that has one.
    pub by_uuid: Map<u128, u64>,
    /// The indirect references, by their handles.
    pub indirects: Map<u64, IndirectView>,
    /// The handle of each identifier that is referred to.
    pub by_identifier: Map<(Seq<char>, Option<u128>), u64>,
    /// The handle of the load that each resolved indirect reference stands for.
    pub table: Map<u64, u64>,
    /// The reloads that have not come into use.
    pub pending_reloads: Seq<PendingReload>,
    /// The assets that were invalidated and not looked at since, oldest first.
    pub invalidated: Seq<u128>,
    /// The handles got from the allocator so far, in their order.
    pub given: Seq<LoadHandle>,
    /// What failed and is tried again, in its order.
    pub failures: Seq<FailureView>,
}

impl LoaderView {
    /// The state of a loader to which nothing has happened yet.
    pub open spec fn empty() -> LoaderView {
        LoaderView {
            loads: Map::empty(),
            by_uuid: Map::empty(),
            indirects: Map::empty(),
            by_identifier: Map::empty(),
            table: Map::empty(),
            pending_reloads: Seq::empty(),
            invalidated: Seq::empty(),
            given: Seq::empty(),
            failures: Seq::empty(),
        }
    }

    /// Every load is the one that its asset has, and every asset that has a handle has a load.
    pub open spec fn covered(self) -> bool {
        &&& forall|uuid: u128| #[trigger]
            self.by_uuid.contains_key(uuid) ==> self.loads.contains_key(self.by_uuid[uuid])
        &&& forall|key: u64| #[trigger]
            self.loads.contains_key(key) ==> {
                &&& self.by_uuid.contains_key(self.loads[key].asset_id.0)
                &&& self.by_uuid[self.loads[key].asset_id.0] == key
            }
    }

    /// The loads and the handles of the assets fit together. As long as no two assets share a
    /// handle, the versions of each load are in the order of their numbers.
    pub open spec fn loads_wf(self) -> bool {
        &&& distinct_handles(self.by_uuid) ==> all_numbered(self.loads)
        &&& forall|key: u64| #[trigger] self.loads.contains_key(key) ==> self.loads[key].wf()
        &&& self.covered()
    }

    /// Every identifier that has a handle has an indirect reference, and what an indirect reference
    /// is resolved to has a load, which is the one that the table gives.
    pub open spec fn indirects_wf(self) -> bool {
        &&& forall|id: (Seq<char>, Option<u128>)| #[trigger]
            self.by_identifier.contains_key(id) ==> {
                &&& self.indirects.contains_key(self.by_identifier[id])
                &&& LoadHandle(self.by_identifier[id]).indirect()
            }
        &&& forall|key: u64| #[trigger]
            self.indirects.contains_key(key) ==> (self.indirects[key].resolved_uuid matches Some(
                uuid,
            ) ==> {
                &&& self.by_uuid.contains_key(uuid.0)
                &&& self.table.contains_key(key)
                &&& self.table[key] == self.by_uuid[uuid.0]
            })
        &&& forall|key: u64| #[trigger]
            self.table.contains_key(key) ==> self.loads.contains_key(self.table[key])
    }

    /// The parts of the state fit together, no reload is pending twice, and every handle in use
    /// comes from the allocator.
    pub open spec fn wf(self) -> bool {
        &&& self.loads_wf()
        &&& self.indirects_wf()
        &&& distinct_reloads(self.pending_reloads)
        &&& handles_wf(self.given, self.by_uuid, self.by_identifier)
    }

    /// Every load and every handle of an asset that was there before is still there.
    pub open spec fn extends(self, before: LoaderView) -> bool {
        &&& part_of(before.by_uuid, self.by_uuid)
        &&& forall|key: u64| #[trigger]
            before.loads.contains_key(key) ==> self.loads.contains_key(key)
    }

    /// Nothing but the number of references differs in any load that was there before.
    pub open spec fn keeps_loads(self, before: LoaderView) -> bool {
        forall|key: u64| #[trigger]
            before.loads.contains_key(key) ==> {
                &&& self.loads.contains_key(key)
                &&& self.loads[key] == (LoadView {
                    refs: self.loads[key].refs,
                    ..before.loads[key]
                })
            }
    }

    /// The state with a load put in.
    pub open spec fn with_load(self, key: u64, load: LoadView) -> LoaderView {
        LoaderView { loads: self.loads.insert(key, load), ..self }
    }

    /// The state with an indirect reference put in.
    pub open spec fn with_indirect(self, key: u64, indirect: IndirectView) -> LoaderView {
        LoaderView { indirects: self.indirects.insert(key, indirect), ..self }
    }

    /// The state with a new load for an asset, under a handle that was given out for it.
    pub open spec fn with_new_load(self, uuid: u128, key: u64) -> LoaderView {
        LoaderView {
            loads: self.loads.insert(key, LoadView::fresh(AssetUuid(uuid))),
            by_uuid: self.by_uuid.insert(uuid, key),
            given: self.given.push(LoadHandle(key)),
            ..self
        }
    }

    /// The state with a new indirect reference for an identifier, under a handle that was given out
    /// for it, marked as indirect.
    pub open spec fn with_new_indirect(
        self,
        id: (Seq<char>, Option<u128>),
        handle: LoadHandle,
    ) -> LoaderView {
        let key = handle.as_indirect().0;
        LoaderView {
            indirects: self.indirects.insert(key, IndirectView::fresh(id)),
            by_identifier: self.by_identifier.insert(id, key),
            given: self.given.push(handle),
            ..self
        }
    }

    /// The state in which an asset has a load.
    pub open spec fn get_or_insert(self, uuid: u128, fresh: Map<u128, u64>) -> LoaderView {
        if self.by_uuid.contains_key(uuid) {
            self
        } else {
            self.with_new_load(uuid, fresh[uuid])
        }
    }

    /// The state with an asset referenced more often.
    pub open spec fn add_refs(self, uuid: u128, n: usize, fresh: Map<u128, u64>) -> LoaderView {
        let s = self.get_or_insert(uuid, fresh);
        s.with_load(s.by_uuid[uuid], s.loads[s.by_uuid[uuid]].refs_added(n))
    }

    /// The state with a load referenced less often, if there is such a load.
    pub open spec fn remove_direct_refs(self, key: u64, n: usize) -> LoaderView {
        if self.loads.contains_key(key) {
            self.with_load(key, self.loads[key].refs_removed(n))
        } else {
            self
        }
    }

    /// The state with a load or an indirect reference held less often. An indirect reference that
    /// is resolved gives up one reference to its asset, through the handle of that asset.
    pub open spec fn remove_refs(self, load: LoadHandle, n: usize) -> LoaderView {
        self.remove_chain(load, n, self.indirects.dom().len() + 1)
    }

    /// The same, with at most `depth` handles behind the first one. If an asset has a handle that
    /// is marked as indirect, an indirect reference may stand behind that handle in turn. Such a
    /// chain is not longer than there are indirect references, unless it runs in a circle, which is
    /// cut off.
    pub open spec fn remove_chain(self, load: LoadHandle, n: usize, depth: nat) -> LoaderView
        decreases depth,
    {
        if !load.indirect() {
            self.remove_direct_refs(load.0, n)
        } else if !self.indirects.contains_key(load.0) {
            self
        } else {
            let s = match self.indirects[load.0].resolved_uuid {
                Some(uuid) if depth > 0 => self.remove_chain(
                    LoadHandle(self.by_uuid[uuid.0]),
                    1,
                    (depth - 1) as nat,
                ),
                _ => self,
            };
            s.with_indirect(load.0, s.indirects[load.0].refs_removed(n))
        }
    }

    /// The state with an indirect reference held once more; if it is resolved, its asset is
    /// referenced once more too.
    pub open spec fn add_ref_indirect(self, key: u64) -> LoaderView {
        let indirect = self.indirects[key];
        let s = match indirect.resolved_uuid {
            Some(uuid) => self.add_refs(uuid.0, 1, self.by_uuid),
            None => self,
        };
        s.with_indirect(key, indirect.refs_added(1))
    }

    /// The load that a handle stands for.
    pub open spec fn resolve(self, load: LoadHandle) -> Option<u64> {
        if !load.indirect() {
            Some(load.0)
        } else if self.table.contains_key(load.0) {
            Some(self.table[load.0])
        } else {
            None
        }
    }

    /// The load behind a handle, if there is one.
    pub open spec fn load_of(self, load: LoadHandle) -> Option<LoadView> {
        match self.resolve(load) {
            Some(key) => if self.loads.contains_key(key) {
                Some(self.loads[key])
            } else {
                None
            },
            None => None,
        }
    }

    /// The place of a version of a load.
    pub open spec fn find_version(self, handle: LoadHandle, version: u32) -> Result<int, ErrorView> {
        if !self.loads.contains_key(handle.0) {
            Err(ErrorView::MissingLoad(handle))
        } else {
            match position(self.loads[handle.0].versions, VersionQuery::Number(version)) {
                Some(i) => Ok(i),
                None => Err(ErrorView::MissingVersion(handle, version)),
            }
        }
    }

    /// The state with a failure noted.
    pub open spec fn failed(self, failure: FailureView) -> LoaderView {
        LoaderView { failures: self.failures.push(failure), ..self }
    }

    /// The state with further assets invalidated.
    pub open spec fn invalidate(self, assets: Seq<u128>) -> LoaderView {
        LoaderView { invalidated: self.invalidated + assets, ..self }
    }

    /// Referencing an asset changes nothing else in the loads that are there, as long as no two
    /// assets share a handle.
    pub proof fn lemma_add_refs_keeps(self, uuid: u128, n: usize, fresh: Map<u128, u64>)
        requires
            self.covered(),
            distinct_handles(fresh),
            part_of(self.add_refs(uuid, n, fresh).by_uuid, fresh),
        ensures
            self.add_refs(uuid, n, fresh).covered(),
            self.add_refs(uuid, n, fresh).keeps_loads(self),
    {
        let after = self.add_refs(uuid, n, fresh);
        if !self.by_uuid.contains_key(uuid) {
            assert(after.by_uuid.contains_key(uuid));
            assert forall|key: u64| self.loads.contains_key(key) implies key != fresh[uuid] by {
                let owner = self.loads[key].asset_id.0;
                assert(self.by_uuid.contains_key(owner));
                assert(after.by_uuid.contains_key(owner));
                assert(fresh.contains_key(owner) && fresh.contains_key(uuid));
            }
        }
    }

    /// If the asset behind an indirect reference has a direct handle, the chain ends there, however
    /// long it may be.
    pub proof fn lemma_chain_ends(self, load: LoadHandle, n: usize, depth: nat)
        requires
            depth > 0,
            self.indirects.contains_key(load.0) ==> (self.indirects[load.0].resolved_uuid matches Some(
                uuid,
            ) ==> !LoadHandle(self.by_uuid[uuid.0]).indirect()),
        ensures
            self.remove_chain(load, n, depth) == self.remove_chain(load, n, 1),
    {
        if load.indirect() && self.indirects.contains_key(load.0) {
            if let Some(uuid) = self.indirects[load.0].resolved_uuid {
                let target = LoadHandle(self.by_uuid[uuid.0]);
                self.lemma_remove_direct(target, 1);
                assert(self.remove_chain(target, 1, (depth - 1) as nat) == self.remove_chain(
                    target,
                    1,
                    0,
                ));
            }
        }
    }

    /// Removing references changes nothing but reference counts.
    pub proof fn lemma_remove_chain_keeps(self, load: LoadHandle, n: usize, depth: nat)
        ensures
            self.remove_chain(load, n, depth) == (LoaderView {
                loads: self.remove_chain(load, n, depth).loads,
                indirects: self.remove_chain(load, n, depth).indirects,
                ..self
            }),
            self.remove_chain(load, n, depth).loads.dom() == self.loads.dom(),
            self.remove_chain(load, n, depth).keeps_loads(self),
            self.remove_chain(load, n, depth).indirects.dom() == self.indirects.dom(),
            forall|key: u64| #[trigger]
                self.indirects.contains_key(key) ==> self.remove_chain(
                    load,
                    n,
                    depth,
                ).indirects[key] == (IndirectView {
                    refs: self.remove_chain(load, n, depth).indirects[key].refs,
                    ..self.indirects[key]
                }),
        decreases depth,
    {
        let after = self.remove_chain(load, n, depth);
        if load.indirect() && self.indirects.contains_key(load.0) {
            if let Some(uuid) = self.indirects[load.0].resolved_uuid {
                if depth > 0 {
                    self.lemma_remove_chain_keeps(
                        LoadHandle(self.by_uuid[uuid.0]),
                        1,
                        (depth - 1) as nat,
                    );
                }
            }
            assert(after.indirects.dom() =~= self.indirects.dom());
        }
        assert(after.loads.dom() =~= self.loads.dom());
    }

    /// A direct handle is the handle of one load, so removing references ends there.
    pub proof fn lemma_remove_direct(self, load: LoadHandle, n: usize)
        requires
            !load.indirect(),
        ensures
            forall|depth: nat| #[trigger]
                self.remove_chain(load, n, depth) == self.remove_direct_refs(load.0, n),
            self.remove_refs(load, n) == self.remove_direct_refs(load.0, n),
    {
    }
}

} // verus!
