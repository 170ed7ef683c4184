//! Artifacts: the stored form of an imported asset, a metadata header
//! followed by the payload.

use vstd::prelude::*;
use vstd::bytes::{
    lemma_auto_spec_u32_to_from_le_bytes, spec_u32_from_le_bytes, spec_u32_to_le_bytes,
    u32_from_le_bytes, u32_to_le_bytes, u64_from_le_bytes, u64_to_le_bytes,
};
use vstd::slice::{slice_subrange, slice_to_vec};
use crate::asset::bytes::{
    decode_ids, encode_ids, encode_items, le_bytes, le_value, lemma_encode_items_len,
    lemma_ids_round_trip, lemma_le_bytes, IntoBytes,
};
use crate::asset::set::{seq_difference, IdSet};
use crate::asset::{Asset, AssetId, AssetType};

verus! {

/// What an artifact's header says, as plain values.
pub ghost struct ArtifactMetaView {
    pub id: AssetId,
    pub ty: AssetType,
    pub checksum: u32,
    pub modified: u64,
    pub dependencies: Seq<AssetId>,
}

/// The header of an artifact: which asset it is, of what kind, the checksum
/// of what it was imported from, when that was last modified, and the ids of
/// the assets it depends on.
#[derive(Debug)]
pub struct ArtifactMeta {
    id: AssetId,
    ty: AssetType,
    checksum: u32,
    modified: u64,
    dependencies: IdSet,
}

impl View for ArtifactMeta {
    type V = ArtifactMetaView;

    closed spec fn view(&self) -> ArtifactMetaView {
        ArtifactMetaView {
            id: self.id,
            ty: self.ty,
            checksum: self.checksum,
            modified: self.modified,
            dependencies: self.dependencies@,
        }
    }
}

/// The bytes of a header: id, type, checksum, modification time, each
/// little-endian at its fixed width, then the set of dependencies.
pub open spec fn encode_meta(meta: ArtifactMetaView) -> Seq<u8> {
    le_bytes(meta.id.0) + le_bytes(meta.ty.0) + spec_u32_to_le_bytes(meta.checksum) + le_bytes(
        meta.modified,
    ) + encode_ids(meta.dependencies)
}

/// The header that `bytes` stand for. Fewer than 28 bytes, or a set that
/// cannot be read, give `None`; bytes after the set are not read.
pub open spec fn decode_meta(bytes: Seq<u8>) -> Option<ArtifactMetaView> {
    if bytes.len() < 28 {
        None
    } else {
        match decode_ids(bytes.skip(28)) {
            Some(dependencies) => Some(
                ArtifactMetaView {
                    id: AssetId(le_value(bytes.subrange(0, 8))),
                    ty: AssetType(le_value(bytes.subrange(8, 16))),
                    checksum: spec_u32_from_le_bytes(bytes.subrange(16, 20)),
                    modified: le_value(bytes.subrange(20, 28)),
                    dependencies,
                },
            ),
            None => None,
        }
    }
}

/// The headers that have an encoding: no dependency occurs twice, and the
/// encoded header's length is one that a reader on this machine can count.
pub open spec fn meta_encodable(meta: ArtifactMetaView) -> bool {
    meta.dependencies.no_duplicates() && 36 + 16 * meta.dependencies.len() <= usize::MAX
}

/// An encoded header takes 36 bytes and 16 more for each dependency.
pub proof fn lemma_encode_meta_len(meta: ArtifactMetaView)
    ensures
        encode_meta(meta).len() == 36 + 16 * meta.dependencies.len(),
{
    lemma_le_bytes(meta.id.0);
    lemma_le_bytes(meta.ty.0);
    lemma_le_bytes(meta.modified);
    lemma_le_bytes(meta.dependencies.len() as u64);
    lemma_auto_spec_u32_to_from_le_bytes();
    lemma_encode_items_len(meta.dependencies);
}

/// A header survives encoding and decoding, whatever bytes follow it.
pub proof fn lemma_meta_round_trip(meta: ArtifactMetaView, tail: Seq<u8>)
    requires
        meta_encodable(meta),
    ensures
        decode_meta(encode_meta(meta) + tail) == Some(meta),
{
    let bytes = encode_meta(meta) + tail;
    lemma_le_bytes(meta.id.0);
    lemma_le_bytes(meta.ty.0);
    lemma_le_bytes(meta.modified);
    lemma_auto_spec_u32_to_from_le_bytes();
    lemma_encode_meta_len(meta);
    assert(bytes.subrange(0, 8) == le_bytes(meta.id.0));
    assert(bytes.subrange(8, 16) == le_bytes(meta.ty.0));
    assert(bytes.subrange(16, 20) == spec_u32_to_le_bytes(meta.checksum));
    assert(bytes.subrange(20, 28) == le_bytes(meta.modified));
    assert(bytes.skip(28) == encode_ids(meta.dependencies) + tail);
    lemma_ids_round_trip(meta.dependencies, tail);
}

impl ArtifactMeta {
    /// No dependency occurs twice.
    pub open spec fn wf(&self) -> bool {
        self@.dependencies.no_duplicates()
    }

    pub fn new(
        id: AssetId,
        ty: AssetType,
        checksum: u32,
        modified: u64,
        dependencies: IdSet,
    ) -> (meta: ArtifactMeta)
        ensures
            meta@ == (ArtifactMetaView { id, ty, checksum, modified, dependencies: dependencies@ }),
    {
        ArtifactMeta { id, ty, checksum, modified, dependencies }
    }

    /// The header of an asset of the kind `A`.
    pub fn from<A: Asset>(id: AssetId, checksum: u32, modified: u64, dependencies: IdSet) -> (meta:
        ArtifactMeta)
        ensures
            meta@.id == id,
            meta@.checksum == checksum,
            meta@.modified == modified,
            meta@.dependencies == dependencies@,
    {
        ArtifactMeta { id, ty: AssetType::from::<A>(), checksum, modified, dependencies }
    }

    pub fn id(&self) -> (id: AssetId)
        ensures
            id == self@.id,
    {
        self.id
    }

    pub fn ty(&self) -> (ty: AssetType)
        ensures
            ty == self@.ty,
    {
        self.ty
    }

    pub fn checksum(&self) -> (checksum: u32)
        ensures
            checksum == self@.checksum,
    {
        self.checksum
    }

    pub fn modified(&self) -> (modified: u64)
        ensures
            modified == self@.modified,
    {
        self.modified
    }

    pub fn dependencies(&self) -> (dependencies: &IdSet)
        ensures
            dependencies@ == self@.dependencies,
    {
        &self.dependencies
    }

    pub fn set_dependencies(&mut self, dependencies: IdSet)
        ensures
            final(self)@ == (ArtifactMetaView { dependencies: dependencies@, ..old(self)@ }),
    {
        self.dependencies = dependencies;
    }

    /// Whether the header can be encoded: it can unless it has more
    /// dependencies than a length on this machine can count the bytes of.
    pub fn is_encodable(&self) -> (fits: bool)
        requires
            self.wf(),
        ensures
            fits == meta_encodable(self@),
    {
        self.dependencies.len() <= (usize::MAX - 36) / 16
    }

    /// The dependencies of `self` that `other` no longer has.
    pub fn removed_dependencies(&self, other: &ArtifactMeta) -> (removed: IdSet)
        requires
            self.wf(),
        ensures
            removed.wf(),
            removed@ == seq_difference(self@.dependencies, other@.dependencies),
            removed.as_set() == self@.dependencies.to_set().difference(
                other@.dependencies.to_set(),
            ),
    {
        self.dependencies.difference(&other.dependencies)
    }
}

impl Clone for ArtifactMeta {
    fn clone(&self) -> (copy: ArtifactMeta)
        ensures
            copy@ == self@,
    {
        ArtifactMeta {
            id: self.id,
            ty: self.ty,
            checksum: self.checksum,
            modified: self.modified,
            dependencies: self.dependencies.clone(),
        }
    }
}

impl Default for ArtifactMeta {
    fn default() -> (meta: ArtifactMeta)
        ensures
            meta@ == (ArtifactMetaView {
                id: AssetId(0),
                ty: AssetType(0),
                checksum: 0,
                modified: 0,
                dependencies: Seq::empty(),
            }),
    {
        ArtifactMeta {
            id: AssetId(0),
            ty: AssetType(0),
            checksum: 0,
            modified: 0,
            dependencies: IdSet::new(),
        }
    }
}

impl IntoBytes for ArtifactMeta {
    open spec fn encodable(value: ArtifactMetaView) -> bool {
        meta_encodable(value)
    }

    open spec fn encode(value: ArtifactMetaView) -> Seq<u8> {
        encode_meta(value)
    }

    open spec fn decode(bytes: Seq<u8>) -> Option<ArtifactMetaView> {
        decode_meta(bytes)
    }

    fn into_bytes(&self) -> (bytes: Vec<u8>) {
        let mut bytes = u64_to_le_bytes(self.id.0);
        let mut ty = u64_to_le_bytes(self.ty.0);
        let mut checksum = u32_to_le_bytes(self.checksum);
        let mut modified = u64_to_le_bytes(self.modified);
        let mut dependencies = self.dependencies.into_bytes();
        bytes.append(&mut ty);
        bytes.append(&mut checksum);
        bytes.append(&mut modified);
        bytes.append(&mut dependencies);
        bytes
    }

    fn from_bytes(bytes: &[u8]) -> (value: Option<ArtifactMeta>) {
        if bytes.len() < 28 {
            return None;
        }
        let id = AssetId(u64_from_le_bytes(slice_subrange(bytes, 0, 8)));
        let ty = AssetType(u64_from_le_bytes(slice_subrange(bytes, 8, 16)));
        let checksum = u32_from_le_bytes(slice_subrange(bytes, 16, 20));
        let modified = u64_from_le_bytes(slice_subrange(bytes, 20, 28));
        proof {
            assert(bytes@.subrange(28, bytes@.len() as int) == bytes@.skip(28));
        }
        match IdSet::from_bytes(slice_subrange(bytes, 28, bytes.len())) {
            Some(dependencies) => Some(ArtifactMeta { id, ty, checksum, modified, dependencies }),
            None => None,
        }
    }

    proof fn lemma_round_trip(value: ArtifactMetaView) {
        lemma_meta_round_trip(value, Seq::empty());
        assert(encode_meta(value) + Seq::<u8>::empty() == encode_meta(value));
    }
}

/// What an artifact holds, as plain values.
pub ghost struct ArtifactView {
    pub meta: ArtifactMetaView,
    pub payload: Seq<u8>,
}

/// An artifact: the header and the serialized asset.
pub struct Artifact {
    pub meta: ArtifactMeta,
    asset: Vec<u8>,
}

impl View for Artifact {
    type V = ArtifactView;

    closed spec fn view(&self) -> ArtifactView {
        ArtifactView { meta: self.meta@, payload: self.asset@ }
    }
}

/// The bytes of an artifact file: the length of the encoded header as eight
/// little-endian bytes, the encoded header, then the payload to the end.
pub open spec fn encode_artifact(artifact: ArtifactView) -> Seq<u8> {
    le_bytes(encode_meta(artifact.meta).len() as u64) + encode_meta(artifact.meta)
        + artifact.payload
}

/// The number of bytes that the length prefix and the header of an artifact
/// file take, where the file has a length prefix that it can honour and that
/// a reader on this machine can count.
pub open spec fn header_len(bytes: Seq<u8>) -> Option<nat> {
    if bytes.len() < 8 || le_value(bytes.subrange(0, 8)) > bytes.len() - 8 || le_value(
        bytes.subrange(0, 8),
    ) > usize::MAX {
        None
    } else {
        Some((8 + le_value(bytes.subrange(0, 8))) as nat)
    }
}

/// The header of an artifact file, read from the file's front alone.
pub open spec fn decode_header(bytes: Seq<u8>) -> Option<ArtifactMetaView> {
    match header_len(bytes) {
        Some(end) => decode_meta(bytes.subrange(8, end as int)),
        None => None,
    }
}

/// The artifact that the bytes of a file stand for: the header, and all
/// bytes after it as the payload.
pub open spec fn decode_artifact(bytes: Seq<u8>) -> Option<ArtifactView> {
    match header_len(bytes) {
        Some(end) => match decode_meta(bytes.subrange(8, end as int)) {
            Some(meta) => Some(ArtifactView { meta, payload: bytes.skip(end as int) }),
            None => None,
        },
        None => None,
    }
}

/// An artifact survives encoding and decoding.
pub proof fn lemma_artifact_round_trip(artifact: ArtifactView)
    requires
        meta_encodable(artifact.meta),
    ensures
        decode_artifact(encode_artifact(artifact)) == Some(artifact),
        header_len(encode_artifact(artifact)) == Some(8 + encode_meta(artifact.meta).len()),
{
    let head = encode_meta(artifact.meta);
    let bytes = encode_artifact(artifact);
    lemma_encode_meta_len(artifact.meta);
    lemma_le_bytes(head.len() as u64);
    assert(bytes.subrange(0, 8) == le_bytes(head.len() as u64));
    assert(bytes.subrange(8, 8 + head.len() as int) == head);
    assert(bytes.skip(8 + head.len() as int) == artifact.payload);
    lemma_meta_round_trip(artifact.meta, Seq::empty());
    assert(head + Seq::<u8>::empty() == head);
}

/// Encoding an artifact, decoding the bytes and encoding what came out
/// gives the same bytes again.
pub proof fn lemma_artifact_reencode(artifact: ArtifactView)
    requires
        meta_encodable(artifact.meta),
    ensures
        encode_artifact(decode_artifact(encode_artifact(artifact)).unwrap()) == encode_artifact(
            artifact,
        ),
        encode_meta(decode_meta(encode_meta(artifact.meta)).unwrap()) == encode_meta(
            artifact.meta,
        ),
{
    lemma_artifact_round_trip(artifact);
    lemma_meta_round_trip(artifact.meta, Seq::empty());
    assert(encode_meta(artifact.meta) + Seq::<u8>::empty() == encode_meta(artifact.meta));
}

/// The header can be had from the front of a file alone: whenever the whole
/// file decodes to an artifact, the bytes up to `header_len` decode to that
/// artifact's header, and they are fewer than the whole file unless the
/// payload is empty.
pub proof fn lemma_header_independent(bytes: Seq<u8>)
    requires
        decode_artifact(bytes) is Some,
    ensures
        header_len(bytes) is Some,
        header_len(bytes).unwrap() <= bytes.len(),
        decode_header(bytes) == Some(decode_artifact(bytes).unwrap().meta),
        decode_header(bytes.take(header_len(bytes).unwrap() as int)) == decode_header(bytes),
        decode_artifact(bytes).unwrap().payload.len() > 0 ==> header_len(bytes).unwrap()
            < bytes.len(),
{
    let end = header_len(bytes).unwrap() as int;
    let front = bytes.take(end);
    assert(front.subrange(0, 8) == bytes.subrange(0, 8));
    assert(front.subrange(8, end) == bytes.subrange(8, end));
}

impl Artifact {
    /// No dependency of the header occurs twice.
    pub open spec fn wf(&self) -> bool {
        self@.meta.dependencies.no_duplicates()
    }

    pub fn new(meta: ArtifactMeta, asset: Vec<u8>) -> (artifact: Artifact)
        ensures
            artifact@ == (ArtifactView { meta: meta@, payload: asset@ }),
    {
        Artifact { meta, asset }
    }

    pub fn meta(&self) -> (meta: &ArtifactMeta)
        ensures
            meta@ == self@.meta,
    {
        &self.meta
    }

    /// The payload: the serialized asset.
    pub fn asset(&self) -> (payload: &[u8])
        ensures
            payload@ == self@.payload,
    {
        self.asset.as_slice()
    }

    pub fn meta_mut(&mut self) -> (meta: &mut ArtifactMeta)
        ensures
            meta@ == old(self)@.meta,
            final(self)@ == (ArtifactView { meta: final(meta)@, payload: old(self)@.payload }),
    {
        &mut self.meta
    }

    /// The header and the payload, each by itself.
    pub fn into_parts(self) -> (parts: (ArtifactMeta, Vec<u8>))
        ensures
            parts.0@ == self@.meta,
            parts.1@ == self@.payload,
    {
        (self.meta, self.asset)
    }

    /// Reads the header from the front of an artifact file's bytes, without
    /// looking at the payload.
    pub fn read_meta(bytes: &[u8]) -> (meta: Option<ArtifactMeta>)
        ensures
            match meta {
                Some(m) => decode_header(bytes@) == Some(m@) && m.wf(),
                None => decode_header(bytes@) is None,
            },
    {
        if bytes.len() < 8 {
            return None;
        }
        let len = u64_from_le_bytes(slice_subrange(bytes, 0, 8));
        if len > (bytes.len() - 8) as u64 {
            return None;
        }
        ArtifactMeta::from_bytes(slice_subrange(bytes, 8, 8 + len as usize))
    }
}

impl IntoBytes for Artifact {
    open spec fn encodable(value: ArtifactView) -> bool {
        meta_encodable(value.meta)
    }

    open spec fn encode(value: ArtifactView) -> Seq<u8> {
        encode_artifact(value)
    }

    open spec fn decode(bytes: Seq<u8>) -> Option<ArtifactView> {
        decode_artifact(bytes)
    }

    fn into_bytes(&self) -> (bytes: Vec<u8>) {
        let mut head = self.meta.into_bytes();
        let mut payload = self.asset.clone();
        proof {
            lemma_encode_meta_len(self@.meta);
        }
        let mut bytes = u64_to_le_bytes(head.len() as u64);
        bytes.append(&mut head);
        bytes.append(&mut payload);
        bytes
    }

    fn from_bytes(bytes: &[u8]) -> (value: Option<Artifact>) {
        if bytes.len() < 8 {
            return None;
        }
        let len = u64_from_le_bytes(slice_subrange(bytes, 0, 8));
        if len > (bytes.len() - 8) as u64 {
            return None;
        }
        let end = 8 + len as usize;
        match ArtifactMeta::from_bytes(slice_subrange(bytes, 8, end)) {
            Some(meta) => {
                let asset = slice_to_vec(slice_subrange(bytes, end, bytes.len()));
                Some(Artifact { meta, asset })
            },
            None => None,
        }
    }

    proof fn lemma_round_trip(value: ArtifactView) {
        lemma_artifact_round_trip(value);
    }
}

} // verus!
