//! The handles of assets and of identifiers.

use vstd::prelude::*;
use crate::ids::LoadHandle;
use crate::model::LoaderView;
use crate::model::{distinct_handles, given_once};

verus! {

/// As long as the allocator gives out no handle twice, not even with another mark, two assets have
/// the same handle exactly if they are the same, and so do two identifiers; and no asset has the
/// handle of an identifier.
pub proof fn law_handles_are_not_shared(
    s: LoaderView,
    uuid: u128,
    other_uuid: u128,
    id: (Seq<char>, Option<u128>),
    other_id: (Seq<char>, Option<u128>),
)
    requires
        s.wf(),
        given_once(s.given),
    ensures
        distinct_handles(s.by_uuid),
        s.by_uuid.contains_key(uuid) && s.by_uuid.contains_key(other_uuid) ==> (s.by_uuid[uuid]
            == s.by_uuid[other_uuid] <==> uuid == other_uuid),
        s.by_identifier.contains_key(id) && s.by_identifier.contains_key(other_id) ==> (
        s.by_identifier[id] == s.by_identifier[other_id] <==> id == other_id),
        s.by_uuid.contains_key(uuid) && s.by_identifier.contains_key(id) ==> s.by_uuid[uuid]
            != s.by_identifier[id],
{
}

/// An identifier that is new gets a handle that was given out for it alone, marked as indirect. It
/// stands for no asset yet, and no load and no other identifier is touched.
pub proof fn law_new_identifier_touches_nothing_else(
    s: LoaderView,
    id: (Seq<char>, Option<u128>),
    given: LoadHandle,
)
    ensures
        s.with_new_indirect(id, given).given == s.given.push(given),
        s.with_new_indirect(id, given).by_identifier == s.by_identifier.insert(
            id,
            given.as_indirect().0,
        ),
        s.with_new_indirect(id, given).indirects[given.as_indirect().0].resolved_uuid is None,
        s.with_new_indirect(id, given).loads == s.loads,
        s.with_new_indirect(id, given).by_uuid == s.by_uuid,
        s.with_new_indirect(id, given).table == s.table,
        forall|key: u64|
            key != given.as_indirect().0 ==> (#[trigger] s.with_new_indirect(
                id,
                given,
            ).indirects.contains_key(key) <==> s.indirects.contains_key(key))
                && s.with_new_indirect(id, given).indirects[key] == s.indirects[key],
{
}

} // verus!
