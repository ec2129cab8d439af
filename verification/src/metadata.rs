//! What is known of an asset before its data is loaded.

use vstd::prelude::*;
use crate::ids::{ArtifactId, AssetRef, AssetTypeId, AssetUuid, RefView};
use crate::ids::ref_views;

verus! {

/// Describes one build of an asset.
#[derive(Debug)]
pub struct ArtifactMetadata {
    /// The build.
    pub id: ArtifactId,
    /// The asset that was built.
    pub asset_id: AssetUuid,
    /// The assets that must be loaded before this one.
    pub load_deps: Vec<AssetRef>,
    /// The type of the asset.
    pub type_id: AssetTypeId,
}

/// What an [`ArtifactMetadata`] says.
pub struct MetadataView {
    pub id: ArtifactId,
    pub asset_id: AssetUuid,
    pub load_deps: Seq<RefView>,
    pub type_id: AssetTypeId,
}

impl View for ArtifactMetadata {
    type V = MetadataView;

    open spec fn view(&self) -> MetadataView {
        MetadataView {
            id: self.id,
            asset_id: self.asset_id,
            load_deps: ref_views(self.load_deps@),
            type_id: self.type_id,
        }
    }
}

/// Copies a list of references.
pub fn clone_refs(refs: &Vec<AssetRef>) -> (r: Vec<AssetRef>)
    ensures
        ref_views(r@) == ref_views(refs@),
{
    let mut copy: Vec<AssetRef> = Vec::new();
    let mut i: usize = 0;
    while i < refs.len()
        invariant
            i <= refs.len(),
            copy.len() == i,
            forall|j: int| 0 <= j < i ==> (#[trigger] copy@[j])@ == refs@[j]@,
        decreases refs.len() - i,
    {
        copy.push(refs[i].clone());
        i = i + 1;
    }
    assert(ref_views(copy@) =~= ref_views(refs@));
    copy
}

impl Clone for ArtifactMetadata {
    fn clone(&self) -> (r: Self)
        ensures
            r@ == self@,
    {
        ArtifactMetadata {
            id: self.id,
            asset_id: self.asset_id,
            load_deps: clone_refs(&self.load_deps),
            type_id: self.type_id,
        }
    }
}

/// The descriptions of a list, in its order.
pub open spec fn metadata_views(list: Seq<ArtifactMetadata>) -> Seq<MetadataView> {
    list.map_values(|m: ArtifactMetadata| m@)
}

/// Describes an asset that an indirect identifier may stand for.
#[derive(Copy, Clone, PartialEq, Eq, Structural, Debug)]
pub struct AssetMetadata {
    /// The asset.
    pub id: AssetUuid,
    /// The type of its latest build, if it has been built.
    pub type_id: Option<AssetTypeId>,
}

/// The assets found under each path, as they are offered to a resolver.
pub open spec fn candidate_views(candidates: Seq<(String, Vec<AssetMetadata>)>) -> Seq<
    (Seq<char>, Seq<AssetMetadata>),
> {
    candidates.map_values(|c: (String, Vec<AssetMetadata>)| (c.0@, c.1@))
}

} // verus!
