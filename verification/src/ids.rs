//! Identifiers of assets, of their types and of loads.

use vstd::prelude::*;

verus! {

/// The bit of a load handle that marks it as indirect.
pub const INDIRECT_BIT: u64 = 0x8000_0000_0000_0000;

/// Identifies the load of an asset, or an indirect reference to one.
#[derive(Copy, Clone, PartialEq, Eq, Structural, Hash, Debug)]
pub struct LoadHandle(pub u64);

impl LoadHandle {
    /// Whether the handle has to be resolved before it names the load of an asset.
    pub open spec fn indirect(self) -> bool {
        self.0 >= INDIRECT_BIT
    }

    /// The same handle, marked as indirect.
    pub open spec fn as_indirect(self) -> LoadHandle {
        if self.indirect() {
            self
        } else {
            LoadHandle((self.0 + INDIRECT_BIT) as u64)
        }
    }

    /// Returns whether the handle is indirect: it stands for an identifier that is bound to an
    /// asset while the program runs.
    pub fn is_indirect(&self) -> (r: bool)
        ensures
            r == self.indirect(),
    {
        let raw: u64 = self.0;
        assert((raw & 0x8000_0000_0000_0000u64 == 0x8000_0000_0000_0000u64) == (raw
            >= 0x8000_0000_0000_0000u64)) by (bit_vector);
        raw & INDIRECT_BIT == INDIRECT_BIT
    }

    /// Marks the handle as indirect.
    pub fn set_indirect(self) -> (r: LoadHandle)
        ensures
            r == self.as_indirect(),
            r.indirect(),
    {
        let raw: u64 = self.0;
        assert(raw < 0x8000_0000_0000_0000u64 ==> raw | 0x8000_0000_0000_0000u64 == raw
            + 0x8000_0000_0000_0000u64) by (bit_vector);
        assert(raw >= 0x8000_0000_0000_0000u64 ==> raw | 0x8000_0000_0000_0000u64 == raw)
            by (bit_vector);
        LoadHandle(raw | INDIRECT_BIT)
    }
}

/// Identifies an asset: the 128 bits of its UUID.
#[derive(Copy, Clone, PartialEq, Eq, Structural, Hash, Debug)]
pub struct AssetUuid(pub u128);

/// Identifies the type of an asset: the 128 bits of its UUID.
#[derive(Copy, Clone, PartialEq, Eq, Structural, Hash, Debug)]
pub struct AssetTypeId(pub u128);

/// Identifies one build of an asset.
#[derive(Copy, Clone, PartialEq, Eq, Structural, Hash, Debug)]
pub struct ArtifactId(pub u64);

/// A reference to an asset, by its UUID or by its path.
#[derive(Debug)]
pub enum AssetRef {
    Uuid(AssetUuid),
    Path(String),
}

/// What an [`AssetRef`] refers to.
pub enum RefView {
    Uuid(AssetUuid),
    Path(Seq<char>),
}

impl View for AssetRef {
    type V = RefView;

    open spec fn view(&self) -> RefView {
        match *self {
            AssetRef::Uuid(uuid) => RefView::Uuid(uuid),
            AssetRef::Path(path) => RefView::Path(path@),
        }
    }
}

impl Clone for AssetRef {
    fn clone(&self) -> (r: Self)
        ensures
            r@ == self@,
    {
        match self {
            AssetRef::Uuid(uuid) => AssetRef::Uuid(*uuid),
            AssetRef::Path(path) => AssetRef::Path(path.clone()),
        }
    }
}

/// The references of a list, in its order.
pub open spec fn ref_views(refs: Seq<AssetRef>) -> Seq<RefView> {
    refs.map_values(|r: AssetRef| r@)
}

/// A name that a resolver binds to an asset while the program runs.
#[derive(Debug)]
pub enum IndirectIdentifier {
    Path(String),
    PathWithType(String, AssetTypeId),
}

impl View for IndirectIdentifier {
    type V = (Seq<char>, Option<u128>);

    /// The path, and the type that the asset must have, if one is given.
    open spec fn view(&self) -> (Seq<char>, Option<u128>) {
        match *self {
            IndirectIdentifier::Path(path) => (path@, None),
            IndirectIdentifier::PathWithType(path, type_id) => (path@, Some(type_id.0)),
        }
    }
}

impl Clone for IndirectIdentifier {
    fn clone(&self) -> (r: Self)
        ensures
            r@ == self@,
    {
        match self {
            IndirectIdentifier::Path(path) => IndirectIdentifier::Path(path.clone()),
            IndirectIdentifier::PathWithType(path, type_id) => IndirectIdentifier::PathWithType(
                path.clone(),
                *type_id,
            ),
        }
    }
}

impl IndirectIdentifier {
    /// The identifier as plain values.
    pub fn to_key(&self) -> (r: (String, Option<u128>))
        ensures
            (r.0@, r.1) == self@,
    {
        match self {
            IndirectIdentifier::Path(path) => (path.clone(), None),
            IndirectIdentifier::PathWithType(path, type_id) => (path.clone(), Some(type_id.0)),
        }
    }
}

} // verus!
