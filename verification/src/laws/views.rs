//! What the model keeps of plain data: everything that the loader goes by.

use vstd::prelude::*;
use crate::error::{ErrorView, Failure, FailureView, LoaderError};
use crate::ids::{AssetRef, IndirectIdentifier, LoadHandle, RefView};
use crate::indirect::IndirectLoad;
use crate::load::{AssetLoad, AssetVersionLoad};
use crate::load_ops::OpMessage;
use crate::messages::{
    DataRequest, DataResponse, HandleOp, MetadataResponse, ResolveRequest, ResolveResponse,
};
use crate::metadata::ArtifactMetadata;
use crate::model::LoaderView;
use crate::error::failure_views;
use crate::messages::{artifact_requests, identifier_requests};
use crate::model::{error_of, outcome};
use crate::storage::refusal;

verus! {

/// Marking a handle sets its highest bit and leaves the others as they are: a handle is marked
/// exactly if that bit is set, and two handles without the mark stay different with it.
pub proof fn law_mark_is_highest_bit(a: LoadHandle, b: LoadHandle)
    ensures
        a.indirect() <==> a.0 & 0x8000_0000_0000_0000u64 != 0,
        a.as_indirect().0 == a.0 | 0x8000_0000_0000_0000u64,
        a.as_indirect().indirect(),
        a.indirect() ==> a.as_indirect() == a,
        !a.indirect() && !b.indirect() && a.as_indirect() == b.as_indirect() ==> a == b,
{
    let x = a.0;
    assert((x & 0x8000_0000_0000_0000u64 != 0) <==> x >= 0x8000_0000_0000_0000u64) by (bit_vector);
    assert(x < 0x8000_0000_0000_0000u64 ==> x | 0x8000_0000_0000_0000u64 == x
        + 0x8000_0000_0000_0000u64) by (bit_vector);
    assert(x >= 0x8000_0000_0000_0000u64 ==> x | 0x8000_0000_0000_0000u64 == x) by (bit_vector);
}

/// Two identifiers are taken for the same exactly if they have the same path, and both ask for no
/// type or for the same one.
pub proof fn law_identifiers_differ_by_path_and_type(
    a: IndirectIdentifier,
    b: IndirectIdentifier,
)
    ensures
        a@ == b@ <==> match (a, b) {
            (IndirectIdentifier::Path(p), IndirectIdentifier::Path(q)) => p@ == q@,
            (
                IndirectIdentifier::PathWithType(p, t),
                IndirectIdentifier::PathWithType(q, u),
            ) => p@ == q@ && t == u,
            _ => false,
        },
{
}

/// A description shows its build, its asset, its type, and every reference to a dependency, in
/// their order.
pub proof fn law_description_shows_every_dependency(m: ArtifactMetadata, i: int)
    ensures
        m@.id == m.id,
        m@.asset_id == m.asset_id,
        m@.type_id == m.type_id,
        m@.load_deps.len() == m.load_deps@.len(),
        0 <= i < m.load_deps@.len() ==> match m.load_deps@[i] {
            AssetRef::Uuid(uuid) => m@.load_deps[i] == RefView::Uuid(uuid),
            AssetRef::Path(path) => m@.load_deps[i] == RefView::Path(path@),
        },
{
}

/// An answer about metadata shows every description that came, in their order, and every request;
/// or, if nothing came, why.
pub proof fn law_metadata_answer_shows_everything(r: MetadataResponse, i: int)
    ensures
        r@.requests == r.requests@,
        match r.result {
            Ok(list) => r@.found matches Ok(shown) && shown.len() == list@.len() && (0 <= i
                < list@.len() ==> shown[i] == list@[i]@),
            Err(text) => r@.found matches Err(shown) && shown == text@,
        },
{
}

/// An answer with data shows the data, every byte of it, or why there is none, and for which
/// version of which load it is.
pub proof fn law_data_answer_shows_everything(r: DataResponse)
    ensures
        r@.handle == r.handle,
        r@.version == r.version,
        match r.result {
            Ok(bytes) => r@.data matches Ok(shown) && shown == bytes@,
            Err(text) => r@.data matches Err(shown) && shown == text@,
        },
{
}

/// An answer about an identifier shows every path with every asset found there, in their order, or
/// why there are none, and for which identifier it is, under which handle.
pub proof fn law_candidates_answer_shows_everything(r: ResolveResponse, i: int)
    ensures
        r@.handle == r.handle,
        r@.id == r.id@,
        match r.result {
            Ok(list) => r@.candidates matches Ok(shown) && shown.len() == list@.len() && (0 <= i
                < list@.len() ==> shown[i].0 == list@[i].0@ && shown[i].1 == list@[i].1@),
            Err(text) => r@.candidates matches Err(shown) && shown == text@,
        },
{
}

/// A report shows what became of which version of which load.
pub proof fn law_report_shows_outcome(op: HandleOp)
    ensures
        match op {
            HandleOp::Error(handle, version, text) => op@ == OpMessage::Error(
                handle,
                version,
                text@,
            ),
            HandleOp::Complete(handle, version) => op@ == OpMessage::Complete(handle, version),
            HandleOp::Drop(handle, version) => op@ == OpMessage::Drop(handle, version),
        },
{
}

/// An error shows what it is, and which load, version or asset it names.
pub proof fn law_error_shows_what_it_names(e: LoaderError)
    ensures
        match e {
            LoaderError::MissingLoad(h) => e@ == ErrorView::MissingLoad(h),
            LoaderError::MissingVersion(h, v) => e@ == ErrorView::MissingVersion(h, v),
            LoaderError::MissingMetadata(h, v) => e@ == ErrorView::MissingMetadata(h, v),
            LoaderError::MissingAssetType(h, v) => e@ == ErrorView::MissingAssetType(h, v),
            LoaderError::UnexpectedState(h, v) => e@ == ErrorView::UnexpectedState(h, v),
            LoaderError::LoadFailed(h, v, text) => e@ == ErrorView::LoadFailed(h, v, text@),
            LoaderError::OpDropped(h, v) => e@ == ErrorView::OpDropped(h, v),
            LoaderError::ExpectedUuid(h, v) => e@ == ErrorView::ExpectedUuid(h, v),
            LoaderError::MissingDependency(uuid) => e@ == ErrorView::MissingDependency(uuid),
            LoaderError::MissingIndirect(h) => e@ == ErrorView::MissingIndirect(h),
            LoaderError::VersionsExhausted(h) => e@ == ErrorView::VersionsExhausted(h),
        },
        error_of(Err(e)) == Some(e@),
        error_of(Ok(())) is None,
{
}

/// A failure shows what failed, for which version of which load, and what was said.
pub proof fn law_failure_shows_what_was_said(failures: Seq<Failure>, i: int)
    ensures
        failure_views(failures).len() == failures.len(),
        0 <= i < failures.len() ==> match failures[i] {
            Failure::Metadata(text) => failure_views(failures)[i] == FailureView::Metadata(text@),
            Failure::Data(h, v, text) => failure_views(failures)[i] == FailureView::Data(
                h,
                v,
                text@,
            ),
            Failure::Update(h, v, text) => failure_views(failures)[i] == FailureView::Update(
                h,
                v,
                text@,
            ),
            Failure::Resolve(h, text) => failure_views(failures)[i] == FailureView::Resolve(
                h,
                text@,
            ),
        },
{
}

/// A storage refuses data exactly if it returns an error, and says why in it. An operation comes to
/// its state exactly if it returns no error, and otherwise to that error.
pub proof fn law_results_are_taken_at_their_word(
    taken: Result<(), String>,
    done: Result<(), LoaderError>,
    after: LoaderView,
)
    ensures
        taken is Ok <==> refusal(taken) is None,
        taken matches Err(text) ==> refusal(taken) == Some(text@),
        done is Ok ==> outcome(done, after) == Ok::<LoaderView, ErrorView>(after),
        done matches Err(e) ==> outcome(done, after) == Err::<LoaderView, ErrorView>(e@),
{
}

/// The requests that are handed over are those that are noted, one for one, in their order.
pub proof fn law_requests_are_noted_one_for_one(
    data: Seq<DataRequest>,
    identifiers: Seq<ResolveRequest>,
    i: int,
)
    ensures
        artifact_requests(data).len() == data.len(),
        0 <= i < data.len() ==> artifact_requests(data)[i] == (data[i].request, data[i].tx),
        identifier_requests(identifiers).len() == identifiers.len(),
        0 <= i < identifiers.len() ==> identifier_requests(identifiers)[i] == (
            (identifiers[i].id@, identifiers[i].handle),
            identifiers[i].tx,
        ),
{
}

/// An identifier that is held shows its path and its type, its state, the asset to which it is
/// bound, how often it is held, and whether it is to be bound anew.
pub proof fn law_held_identifier_shows_everything(i: IndirectLoad)
    ensures
        i@.id == i.id@,
        i@.state == i.state,
        i@.resolved_uuid == i.resolved_uuid,
        i@.refs == i.refs,
        i@.pending_reresolve == i.pending_reresolve,
{
}

/// A load shows its asset, how often it is referenced, and every version of it with its state, its
/// description, its type, its number and how it comes into use.
pub proof fn law_load_shows_every_version(load: AssetLoad, i: int)
    ensures
        load@.asset_id == load.asset_id,
        load@.refs == load.refs,
        load@.version_counter == load.version_counter,
        load@.pending_reload == load.pending_reload,
        load@.versions.len() == load.versions@.len(),
        0 <= i < load.versions@.len() ==> {
            let v: AssetVersionLoad = load.versions@[i];
            let shown = load@.versions[i];
            &&& shown.state == v.state
            &&& shown.asset_type == v.asset_type
            &&& shown.auto_commit == v.auto_commit
            &&& shown.version == v.version
            &&& match v.metadata {
                Some(m) => shown.metadata == Some(m@),
                None => shown.metadata is None,
            }
        },
{
}

} // verus!
