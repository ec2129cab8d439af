//! What goes wrong: why a pass over the loader's state cannot go on, and what is tried again.

use vstd::prelude::*;
use crate::ids::{AssetUuid, LoadHandle};

verus! {

/// A message or an asset that the loader cannot make sense of.
#[derive(Debug)]
pub enum LoaderError {
    /// A message names a load that does not exist.
    MissingLoad(LoadHandle),
    /// A message names a version that the load does not have.
    MissingVersion(LoadHandle, u32),
    /// Data arrived for a version whose metadata is not known.
    MissingMetadata(LoadHandle, u32),
    /// A version is to be committed, but the storage never took its data.
    MissingAssetType(LoadHandle, u32),
    /// A version is to be committed, but this version of the same load is not in a state that
    /// allows it.
    UnexpectedState(LoadHandle, u32),
    /// The storage reported that it could not load a version.
    LoadFailed(LoadHandle, u32, String),
    /// The storage gave up a load operation without reporting its outcome.
    OpDropped(LoadHandle, u32),
    /// A version depends on an asset that is given by its path.
    ExpectedUuid(LoadHandle, u32),
    /// A version that is unloaded depends on an asset that has no load.
    MissingDependency(AssetUuid),
    /// A message names an indirect reference that does not exist.
    MissingIndirect(LoadHandle),
    /// A load has used up its version numbers.
    VersionsExhausted(LoadHandle),
}

/// What a [`LoaderError`] says.
pub enum ErrorView {
    MissingLoad(LoadHandle),
    MissingVersion(LoadHandle, u32),
    MissingMetadata(LoadHandle, u32),
    MissingAssetType(LoadHandle, u32),
    UnexpectedState(LoadHandle, u32),
    LoadFailed(LoadHandle, u32, Seq<char>),
    OpDropped(LoadHandle, u32),
    ExpectedUuid(LoadHandle, u32),
    MissingDependency(AssetUuid),
    MissingIndirect(LoadHandle),
    VersionsExhausted(LoadHandle),
}

impl View for LoaderError {
    type V = ErrorView;

    open spec fn view(&self) -> ErrorView {
        match *self {
            LoaderError::MissingLoad(handle) => ErrorView::MissingLoad(handle),
            LoaderError::MissingVersion(handle, version) => ErrorView::MissingVersion(
                handle,
                version,
            ),
            LoaderError::MissingMetadata(handle, version) => ErrorView::MissingMetadata(
                handle,
                version,
            ),
            LoaderError::MissingAssetType(handle, version) => ErrorView::MissingAssetType(
                handle,
                version,
            ),
            LoaderError::UnexpectedState(handle, version) => ErrorView::UnexpectedState(
                handle,
                version,
            ),
            LoaderError::LoadFailed(handle, version, message) => ErrorView::LoadFailed(
                handle,
                version,
                message@,
            ),
            LoaderError::OpDropped(handle, version) => ErrorView::OpDropped(handle, version),
            LoaderError::ExpectedUuid(handle, version) => ErrorView::ExpectedUuid(handle, version),
            LoaderError::MissingDependency(uuid) => ErrorView::MissingDependency(uuid),
            LoaderError::MissingIndirect(handle) => ErrorView::MissingIndirect(handle),
            LoaderError::VersionsExhausted(handle) => ErrorView::VersionsExhausted(handle),
        }
    }
}

/// What failed in a pass and is tried again.
#[derive(Debug)]
pub enum Failure {
    /// Metadata could not be fetched.
    Metadata(String),
    /// The data of a version could not be fetched.
    Data(LoadHandle, u32, String),
    /// The storage refused the data of a version.
    Update(LoadHandle, u32, String),
    /// The candidates for an identifier could not be fetched.
    Resolve(LoadHandle, String),
}

/// What a [`Failure`] says.
pub enum FailureView {
    Metadata(Seq<char>),
    Data(LoadHandle, u32, Seq<char>),
    Update(LoadHandle, u32, Seq<char>),
    Resolve(LoadHandle, Seq<char>),
}

impl View for Failure {
    type V = FailureView;

    open spec fn view(&self) -> FailureView {
        match *self {
            Failure::Metadata(text) => FailureView::Metadata(text@),
            Failure::Data(handle, version, text) => FailureView::Data(handle, version, text@),
            Failure::Update(handle, version, text) => FailureView::Update(handle, version, text@),
            Failure::Resolve(handle, text) => FailureView::Resolve(handle, text@),
        }
    }
}

/// The failures of a list, in its order.
pub open spec fn failure_views(failures: Seq<Failure>) -> Seq<FailureView> {
    failures.map_values(|f: Failure| f@)
}

} // verus!
