//! Importers, what they work on, and the registry that erases their types.

use vstd::prelude::*;
use vstd::utf8::decode_utf8;
use std::marker::PhantomData;
use crate::asset::{Asset, AssetId, AssetMetadata, AssetType, Settings};
use crate::asset::artifact::{
    decode_artifact, decode_header, meta_encodable, Artifact, ArtifactMeta, ArtifactMetaView,
};
use crate::asset::bytes::{push_new, IntoBytes};
use crate::asset::config::{artifact_path, metadata_path};
use crate::asset::io::{checksum_of, AssetFileSystem, AssetIoError, FileSystem};
use crate::asset::path::same_text;
use crate::asset::set::{lemma_seq_difference, seq_difference, seq_union, IdSet};
use crate::asset::sidecar::{
    bytes_id, held_at, names_metadata, unwritable, used_metadata, written_for,
};
use crate::blob::{BlobCell, BlobMut, BlobRef};
use crate::dense::DenseMap;

verus! {

/// An error that an importer or a processor reports in its own words.
#[derive(Debug)]
pub struct CustomError(pub String);

impl CustomError {
    /// The error with the message `message`.
    pub fn from(message: &str) -> (error: CustomError)
        ensures
            error.0@ == message@,
    {
        CustomError(String::from_str(message))
    }

    /// The error as a line of text.
    pub fn to_string(&self) -> (text: String)
        ensures
            text@ == "Custom error: "@ + self.0@,
    {
        String::from_str("Custom error: ").concat(self.0.as_str())
    }
}

/// Why the import of a source failed.
#[derive(Debug)]
pub enum ImportCause {
    /// The path has no extension.
    NoExtension,
    /// No importer is registered for the extension.
    NoImporter(String),
    /// Reading or writing failed, or what was read cannot be decoded.
    Io(AssetIoError),
    /// The importer failed.
    Importer(CustomError),
    /// The processor failed.
    Processor(CustomError),
}

/// The record of a failed import: the source, its id as far as it is known,
/// the header of the artifact that still stands, and the cause.
#[derive(Debug)]
pub struct ImportError {
    pub path: String,
    pub id: AssetId,
    pub artifact: Option<ArtifactMeta>,
    pub error: ImportCause,
}

impl ImportError {
    pub fn new(path: &str, id: AssetId, error: ImportCause) -> (record: ImportError)
        ensures
            record.path@ == path@,
            record.id == id,
            record.artifact is None,
            record.error == error,
    {
        ImportError { path: String::from_str(path), id, error, artifact: None }
    }

    pub fn with_artifact(self, artifact: ArtifactMeta) -> (record: ImportError)
        ensures
            record.path == self.path,
            record.id == self.id,
            record.artifact == Some(artifact),
            record.error == self.error,
    {
        let mut record = self;
        record.artifact = Some(artifact);
        record
    }

    pub fn with_option_artifact(self, artifact: Option<ArtifactMeta>) -> (record: ImportError)
        ensures
            record.path == self.path,
            record.id == self.id,
            record.artifact == artifact,
            record.error == self.error,
    {
        let mut record = self;
        record.artifact = artifact;
        record
    }
}

/// What an importer sees of a source: its path, its bytes and its metadata,
/// and the set of dependencies that the importer declares.
pub struct LoadContext<'a, S: Settings> {
    path: &'a str,
    bytes: &'a [u8],
    metadata: &'a AssetMetadata<S>,
    dependencies: IdSet,
}

impl<'a, S: Settings> LoadContext<'a, S> {
    /// The path of the source.
    pub closed spec fn source_path(&self) -> Seq<char> {
        self.path@
    }

    /// The bytes of the source.
    pub closed spec fn source(&self) -> Seq<u8> {
        self.bytes@
    }

    /// The metadata of the source.
    pub closed spec fn source_metadata(&self) -> AssetMetadata<S> {
        *self.metadata
    }

    /// The dependencies declared so far, in the order of their declaration.
    pub closed spec fn declared(&self) -> Seq<AssetId> {
        self.dependencies@
    }

    /// No dependency is declared twice.
    pub open spec fn wf(&self) -> bool {
        self.declared().no_duplicates()
    }

    pub fn new(path: &'a str, bytes: &'a [u8], metadata: &'a AssetMetadata<S>) -> (ctx: LoadContext<
        'a,
        S,
    >)
        ensures
            ctx.wf(),
            ctx.source_path() == path@,
            ctx.source() == bytes@,
            ctx.source_metadata() == *metadata,
            ctx.declared() == Seq::<AssetId>::empty(),
    {
        LoadContext { path, bytes, metadata, dependencies: IdSet::new() }
    }

    pub fn path(&self) -> (path: &str)
        ensures
            path@ == self.source_path(),
    {
        self.path
    }

    pub fn bytes(&self) -> (bytes: &[u8])
        ensures
            bytes@ == self.source(),
    {
        self.bytes
    }

    pub fn metadata(&self) -> (metadata: &AssetMetadata<S>)
        ensures
            *metadata == self.source_metadata(),
    {
        self.metadata
    }

    pub fn dependencies(&self) -> (dependencies: &IdSet)
        ensures
            dependencies@ == self.declared(),
    {
        &self.dependencies
    }

    /// Declares that the asset depends on `id`.
    pub fn add_dependency(&mut self, id: AssetId)
        requires
            old(self).wf(),
        ensures
            final(self).wf(),
            final(self).declared() == push_new(old(self).declared(), id),
            final(self).source_path() == old(self).source_path(),
            final(self).source() == old(self).source(),
            final(self).source_metadata() == old(self).source_metadata(),
    {
        self.dependencies.insert(id);
    }

    /// The declared dependencies.
    pub fn finish(self) -> (dependencies: IdSet)
        ensures
            dependencies@ == self.declared(),
    {
        self.dependencies
    }
}

/// The serialized form of an asset kind: how an asset becomes the payload of
/// an artifact and comes back from it.
pub trait AssetSaver: Send + Sync + 'static {
    type Asset: Asset;

    type Settings: Settings;

    fn save(asset: &Self::Asset, metadata: &AssetMetadata<Self::Settings>) -> Vec<u8>;

    fn load(bytes: &[u8]) -> Self::Asset;
}

/// What turns the bytes of a source into an asset.
pub trait AssetImporter: Send + Sync + 'static {
    type Asset: Asset;

    type Settings: Settings;

    type Saver: AssetSaver<Asset = Self::Asset, Settings = Self::Settings>;

    /// What the importer makes of a source with the given path, bytes and
    /// metadata: the dependencies that it declares, in the order of their
    /// declaration, or nothing where it refuses the source. An importer
    /// makes the same of the same source.
    open spec fn makes(
        path: Seq<char>,
        bytes: Seq<u8>,
        metadata: AssetMetadata<Self::Settings>,
    ) -> Option<Seq<AssetId>> {
        arbitrary()
    }

    /// Makes the asset of a source. The importer declares what the asset
    /// depends on by `add_dependency`.
    fn import(ctx: &mut LoadContext<Self::Settings>) -> (asset: Result<Self::Asset, CustomError>)
        requires
            old(ctx).wf(),
        ensures
            match Self::makes(
                old(ctx).source_path(),
                old(ctx).source(),
                old(ctx).source_metadata(),
            ) {
                Some(dependencies) => {
                    &&& asset is Ok
                    &&& old(ctx).declared().len() == 0 ==> final(ctx).declared() == dependencies
                },
                None => asset is Err,
            },
    ;

    /// The extensions of the sources that the importer takes, in lower case
    /// and without the dot.
    fn extensions() -> Vec<String>;
}

/// An imported asset of some kind, with its header, as a loaded artifact gives it.
pub struct LoadedAsset {
    asset: BlobCell,
    meta: ArtifactMeta,
}

impl View for LoadedAsset {
    type V = ArtifactMetaView;

    /// The header; the asset itself has no view.
    closed spec fn view(&self) -> ArtifactMetaView {
        self.meta@
    }
}

impl LoadedAsset {
    pub fn new<A: Asset>(asset: A, meta: ArtifactMeta) -> (loaded: LoadedAsset)
        ensures
            loaded@ == meta@,
    {
        LoadedAsset { asset: BlobCell::new(asset), meta }
    }

    pub fn meta(&self) -> (meta: &ArtifactMeta)
        ensures
            meta@ == self@,
    {
        &self.meta
    }

    /// The asset, where it is of the kind `A`.
    pub fn asset<A: Asset>(&self) -> Option<&A> {
        self.asset.value::<A>()
    }
}

/// The assets that a batch has loaded so far, by id.
pub struct AssetStore {
    assets: DenseMap<u64, LoadedAsset>,
}

impl View for AssetStore {
    type V = Map<AssetId, LoadedAsset>;

    closed spec fn view(&self) -> Map<AssetId, LoadedAsset> {
        Map::new(|id: AssetId| self.assets@.contains_key(id.0), |id: AssetId| self.assets@[id.0])
    }
}

impl AssetStore {
    /// The index of the store is sound.
    pub closed spec fn wf(&self) -> bool {
        self.assets.wf()
    }

    pub fn new() -> (store: AssetStore)
        ensures
            store.wf(),
            store@ == Map::<AssetId, LoadedAsset>::empty(),
    {
        let store = AssetStore { assets: DenseMap::new() };
        assert(store@ =~= Map::<AssetId, LoadedAsset>::empty());
        store
    }

    pub fn insert(&mut self, id: AssetId, asset: LoadedAsset)
        requires
            old(self).wf(),
        ensures
            final(self).wf(),
            final(self)@ == old(self)@.insert(id, asset),
    {
        self.assets.insert(id.0, asset);
        assert(self@ =~= old(self)@.insert(id, asset));
    }

    /// Moves the assets of `store` into this one; where both hold an id, the
    /// asset of `store` stays.
    pub fn extend(&mut self, store: AssetStore)
        requires
            old(self).wf(),
            store.wf(),
        ensures
            final(self).wf(),
            final(self)@ == old(self)@.union_prefer_right(store@),
    {
        let mut rest = store;
        while rest.assets.len() > 0
            invariant
                self.wf(),
                rest.wf(),
                self@.union_prefer_right(rest@) == old(self)@.union_prefer_right(store@),
            decreases rest.assets.order().len(),
        {
            let ghost before = self@;
            let ghost before_rest = rest@;
            match rest.assets.pop() {
                Some((key, asset)) => {
                    self.assets.insert(key, asset);
                    proof {
                        assert(self@ =~= before.insert(AssetId(key), asset));
                        assert(rest@ =~= before_rest.remove(AssetId(key)));
                        assert(self@.union_prefer_right(rest@) =~= before.union_prefer_right(
                            before_rest,
                        ));
                    }
                },
                None => {},
            }
        }
        proof {
            rest.assets.lemma_view();
            assert(rest@ =~= Map::<AssetId, LoadedAsset>::empty()) by {
                assert forall|id: AssetId| !rest@.contains_key(id) by {
                    if rest.assets@.contains_key(id.0) {
                        assert(rest.assets.order().contains(id.0));
                    }
                }
            }
            assert(self@.union_prefer_right(rest@) =~= self@);
        }
    }

    /// The asset of `id`, where the store holds one and it is of the kind `A`.
    pub fn get<A: Asset>(&self, id: AssetId) -> (asset: Option<&A>)
        requires
            self.wf(),
        ensures
            asset is Some ==> self@.contains_key(id),
    {
        match self.assets.get(&id.0) {
            Some(loaded) => loaded.asset::<A>(),
            None => None,
        }
    }

    pub fn remove(&mut self, id: AssetId) -> (asset: Option<LoadedAsset>)
        requires
            old(self).wf(),
        ensures
            final(self).wf(),
            final(self)@ == old(self)@.remove(id),
            asset == if old(self)@.contains_key(id) {
                Some(old(self)@[id])
            } else {
                None
            },
    {
        let asset = self.assets.remove(&id.0);
        assert(self@ =~= old(self)@.remove(id));
        asset
    }

    pub fn contains(&self, id: &AssetId) -> (found: bool)
        requires
            self.wf(),
        ensures
            found == self@.contains_key(*id),
    {
        self.assets.contains_key(&id.0)
    }

    pub fn clear(&mut self)
        requires
            old(self).wf(),
        ensures
            final(self).wf(),
            final(self)@ == Map::<AssetId, LoadedAsset>::empty(),
    {
        self.assets.clear();
        assert(self@ =~= Map::<AssetId, LoadedAsset>::empty());
    }
}

/// What a processor sees: the metadata of the asset at hand, and the assets
/// that it declared as dependencies, as far as they could be loaded.
pub struct ProcessContext<'a, S: Settings> {
    assets: &'a AssetStore,
    metadata: &'a AssetMetadata<S>,
    dependencies: &'a IdSet,
}

impl<'a, S: Settings> ProcessContext<'a, S> {
    /// The loaded assets.
    pub closed spec fn store(&self) -> AssetStore {
        *self.assets
    }

    /// The metadata of the asset at hand.
    pub closed spec fn asset_metadata(&self) -> AssetMetadata<S> {
        *self.metadata
    }

    /// The dependencies that the importer declared.
    pub closed spec fn declared(&self) -> Seq<AssetId> {
        self.dependencies@
    }

    pub fn new(
        assets: &'a AssetStore,
        metadata: &'a AssetMetadata<S>,
        dependencies: &'a IdSet,
    ) -> (ctx: ProcessContext<'a, S>)
        ensures
            ctx.store() == *assets,
            ctx.asset_metadata() == *metadata,
            ctx.declared() == dependencies@,
    {
        ProcessContext { assets, metadata, dependencies }
    }

    /// The asset of `id`. There is one only where `id` is a declared
    /// dependency and the store holds a loaded asset of the kind `A` for it.
    pub fn asset<A: Asset>(&self, id: AssetId) -> (asset: Option<&A>)
        requires
            self.store().wf(),
        ensures
            asset is Some ==> self.declared().contains(id) && self.store()@.contains_key(id),
            !self.declared().contains(id) ==> asset is None,
    {
        if self.dependencies.contains(id) {
            self.assets.get::<A>(id)
        } else {
            None
        }
    }

    pub fn metadata(&self) -> (metadata: &AssetMetadata<S>)
        ensures
            *metadata == self.asset_metadata(),
    {
        self.metadata
    }
}

/// A second pass over an imported asset, with its dependencies at hand.
pub trait AssetProcessor: Send + Sync + 'static {
    type Importer: AssetImporter;

    fn process(
        asset: &mut <Self::Importer as AssetImporter>::Asset,
        ctx: &mut ProcessContext<<Self::Importer as AssetImporter>::Settings>,
    ) -> (done: Result<(), CustomError>)
        requires
            old(ctx).store().wf(),
    ;
}

/// An asset and its metadata, of the kinds of one saver, behind what the
/// pipeline needs of them whatever their kinds are.
pub(crate) trait Content: Send + Sync {
    /// The payload that the saver makes of the asset and its metadata.
    fn payload(&self) -> Vec<u8>;

    /// The asset.
    fn asset_ref<'a>(&'a self) -> BlobRef<'a>;

    /// The metadata.
    fn metadata_ref<'a>(&'a self) -> BlobRef<'a>;

    /// The asset, to be changed in place.
    fn asset_mut<'a>(&'a mut self) -> BlobMut<'a>;

    /// The asset and the metadata, to be changed in place.
    fn parts_mut<'a>(&'a mut self) -> (BlobMut<'a>, BlobMut<'a>);

    /// The asset alone, in a cell.
    fn into_cell(self: Box<Self>) -> BlobCell;
}

/// An asset and its metadata of the kinds of the saver `V`.
pub(crate) struct TypedContent<V: AssetSaver> {
    asset: V::Asset,
    metadata: AssetMetadata<V::Settings>,
}

impl<V: AssetSaver> Content for TypedContent<V> {
    fn payload(&self) -> Vec<u8> {
        V::save(&self.asset, &self.metadata)
    }

    fn asset_ref<'a>(&'a self) -> BlobRef<'a> {
        BlobRef::of(&self.asset)
    }

    fn metadata_ref<'a>(&'a self) -> BlobRef<'a> {
        BlobRef::of(&self.metadata)
    }

    fn asset_mut<'a>(&'a mut self) -> BlobMut<'a> {
        BlobMut::of(&mut self.asset)
    }

    fn parts_mut<'a>(&'a mut self) -> (BlobMut<'a>, BlobMut<'a>) {
        (BlobMut::of(&mut self.asset), BlobMut::of(&mut self.metadata))
    }

    fn into_cell(self: Box<Self>) -> BlobCell {
        let TypedContent { asset, metadata: _ } = *self;
        BlobCell::new(asset)
    }
}

/// An asset as its importer made it, of some kind, with its metadata and the
/// header that its artifact will have. The asset and the metadata are kept
/// with the saver of their kinds, so that they can be saved whatever their
/// kinds are.
pub struct ImportedAsset {
    content: Box<dyn Content>,
    pub artifact: ArtifactMeta,
}

impl View for ImportedAsset {
    type V = ArtifactMetaView;

    /// The header; the asset and its metadata have no view.
    closed spec fn view(&self) -> ArtifactMetaView {
        self.artifact@
    }
}

impl ImportedAsset {
    /// No dependency of the header occurs twice.
    pub open spec fn wf(&self) -> bool {
        self@.dependencies.no_duplicates()
    }

    /// An asset and its metadata of the kinds of the saver `V`, with the
    /// header `artifact`.
    pub fn new<V: AssetSaver>(
        asset: V::Asset,
        metadata: AssetMetadata<V::Settings>,
        artifact: ArtifactMeta,
    ) -> (imported: ImportedAsset)
        ensures
            imported@ == artifact@,
    {
        ImportedAsset { content: Box::new(TypedContent::<V> { asset, metadata }), artifact }
    }

    /// The asset, where it is of the kind `A`.
    pub fn asset<A: Asset>(&self) -> Option<&A> {
        self.content.asset_ref().get::<A>()
    }

    /// The asset, where it is of the kind `A`, to be changed in place.
    pub fn asset_mut<A: Asset>(&mut self) -> (asset: Option<&mut A>)
        ensures
            final(self)@ == old(self)@,
    {
        self.content.asset_mut().get::<A>()
    }

    /// The metadata, where its settings are of the kind `S`.
    pub fn metadata<S: Settings>(&self) -> Option<&AssetMetadata<S>> {
        self.content.metadata_ref().get::<AssetMetadata<S>>()
    }

    pub fn artifact(&self) -> (artifact: &ArtifactMeta)
        ensures
            artifact@ == self@,
    {
        &self.artifact
    }

    /// The payload that the saver of the asset makes of it and its metadata.
    pub fn payload(&self) -> Vec<u8> {
        self.content.payload()
    }

    /// The asset and its metadata, to be changed in place, and the header;
    /// `None` where the asset is not of the kind `A` or the settings are not
    /// of the kind `S`.
    pub fn mutate<A: Asset, S: Settings>(&mut self) -> (parts: Option<
        (&mut A, &mut AssetMetadata<S>, &ArtifactMeta),
    >)
        ensures
            final(self)@ == old(self)@,
            parts matches Some(p) ==> p.2@ == old(self)@,
    {
        let (asset, metadata) = self.content.parts_mut();
        match asset.get::<A>() {
            Some(asset) => match metadata.get::<AssetMetadata<S>>() {
                Some(metadata) => Some((asset, metadata, &self.artifact)),
                None => None,
            },
            None => None,
        }
    }
}

/// What the save of an asset leaves: the new header, the header that the
/// artifact had before, the dependencies that the asset no longer has, and
/// the asset.
pub struct SavedAsset {
    pub meta: ArtifactMeta,
    pub prev_meta: Option<ArtifactMeta>,
    pub removed_dependencies: IdSet,
    asset: BlobCell,
}

impl SavedAsset {
    /// The new header.
    pub closed spec fn new_meta(&self) -> ArtifactMetaView {
        self.meta@
    }

    /// The header that the artifact had before the save, if it had one.
    pub closed spec fn old_meta(&self) -> Option<ArtifactMetaView> {
        match self.prev_meta {
            Some(meta) => Some(meta@),
            None => None,
        }
    }

    /// The dependencies that the asset had before the save and has no more.
    pub closed spec fn removed(&self) -> Seq<AssetId> {
        self.removed_dependencies@
    }

    /// Neither the new dependencies nor the removed ones hold an id twice.
    pub open spec fn wf(&self) -> bool {
        self.new_meta().dependencies.no_duplicates() && self.removed().no_duplicates()
    }

    pub fn new<A: Asset>(
        asset: A,
        artifact: ArtifactMeta,
        prev_artifact: Option<ArtifactMeta>,
        removed_dependencies: IdSet,
    ) -> (saved: SavedAsset)
        ensures
            saved.new_meta() == artifact@,
            saved.old_meta() == match prev_artifact {
                Some(meta) => Some(meta@),
                None => None,
            },
            saved.removed() == removed_dependencies@,
    {
        SavedAsset {
            meta: artifact,
            prev_meta: prev_artifact,
            removed_dependencies,
            asset: BlobCell::new(asset),
        }
    }

    /// The new header.
    pub fn header(&self) -> (meta: &ArtifactMeta)
        ensures
            meta@ == self.new_meta(),
    {
        &self.meta
    }

    /// The header that the artifact had before the save.
    pub fn previous(&self) -> (meta: Option<&ArtifactMeta>)
        ensures
            match meta {
                Some(m) => self.old_meta() == Some(m@),
                None => self.old_meta() is None,
            },
    {
        match &self.prev_meta {
            Some(meta) => Some(meta),
            None => None,
        }
    }

    /// The dependencies that the asset has no more.
    pub fn gone(&self) -> (removed: &IdSet)
        ensures
            removed@ == self.removed(),
    {
        &self.removed_dependencies
    }

    /// The asset, where it is of the kind `A`.
    pub fn asset<A: Asset>(&self) -> Option<&A> {
        self.asset.value::<A>()
    }

    /// The saved asset as a loaded one: the asset with its new header.
    pub fn into(self) -> (loaded: LoadedAsset)
        ensures
            loaded@ == self.new_meta(),
    {
        LoadedAsset { asset: self.asset, meta: self.meta }
    }
}

/// The sidecar of a source is another file than the source.
pub proof fn lemma_sidecar_differs(path: Seq<char>)
    ensures
        metadata_path(path) != path,
{
    assert(metadata_path(path).len() == path.len() + 1 + "meta"@.len());
}

/// What the import of the source at `path` with the metadata of the id
/// `id`, by an importer of the asset type `ty`, leaves. The one file that
/// may change is the sidecar. On success the source was there; the sidecar
/// is there and was written for the id; the header has the id, the asset
/// type, the checksum of the source and the sidecar, and the time at which
/// the store has the source as last modified, or zero where the store does
/// not tell it, which a reliable store does. On failure the record has the
/// id and no artifact.
pub open spec fn source_outcome<F: FileSystem>(
    before: AssetFileSystem<F>,
    after: AssetFileSystem<F>,
    path: Seq<char>,
    id: AssetId,
    ty: AssetType,
    outcome: Result<ImportedAsset, ImportError>,
) -> bool {
    let sidecar = metadata_path(path);
    &&& after.root() == before.root()
    &&& after.reliable() == before.reliable()
    &&& after.files() == before.files() || (after.files().contains_key(sidecar) && after.files()
        == before.files().insert(sidecar, after.files()[sidecar]))
    &&& match outcome {
        Ok(imported) => {
            &&& imported.wf()
            &&& imported@.id == id
            &&& imported@.ty == ty
            &&& before.files().contains_key(path)
            &&& after.files().contains_key(sidecar)
            &&& written_for(after.files()[sidecar], id)
            &&& imported@.checksum == checksum_of(before.files()[path], after.files()[sidecar])
            &&& imported@.modified == after.modified_at(path) || imported@.modified == 0
            &&& before.reliable() ==> imported@.modified == after.modified_at(path)
        },
        Err(record) => {
            &&& record.path@ == path
            &&& record.id == id
            &&& record.artifact is None
            &&& (record.error is Io || record.error is Importer)
        },
    }
}

/// The id of an outcome of an import: that of the header, or that of the record.
pub open spec fn outcome_id(outcome: Result<ImportedAsset, ImportError>) -> AssetId {
    match outcome {
        Ok(imported) => imported@.id,
        Err(record) => record.id,
    }
}

/// What the import of the source at `path` by an importer of the asset type
/// `ty` leaves, where `known` is the id that the importer reads from the
/// sidecar before it, if it reads one, `stuck` says whether the metadata
/// that the source is imported with has no sidecar, `made` is what the
/// importer makes of the source with that metadata, and `fits` says whether
/// the sidecar after the import was written for that metadata:
/// what the import with the metadata of the outcome's id leaves. With a
/// reliable store that id is the known one, where one is known; the import
/// fails on the store's side only where the metadata has no sidecar or the
/// source is not there, and on the importer's side exactly where the
/// importer refuses the source; the header names the dependencies that the
/// importer declares, each once, and the sidecar is written for the
/// metadata that the source was imported with.
pub open spec fn import_outcome<F: FileSystem>(
    before: AssetFileSystem<F>,
    after: AssetFileSystem<F>,
    path: Seq<char>,
    known: Option<AssetId>,
    stuck: bool,
    made: Option<Seq<AssetId>>,
    fits: bool,
    ty: AssetType,
    outcome: Result<ImportedAsset, ImportError>,
) -> bool {
    &&& source_outcome(before, after, path, outcome_id(outcome), ty, outcome)
    &&& before.reliable() ==> (outcome is Ok ==> fits)
    &&& before.reliable() ==> (known matches Some(id) ==> outcome_id(outcome) == id)
    &&& before.reliable() ==> (outcome matches Err(record) ==> (record.error is Io ==> stuck
        || !before.files().contains_key(path)))
    &&& before.reliable() ==> (outcome matches Err(record) ==> (record.error is Importer
        ==> made is None))
    &&& before.reliable() ==> (outcome matches Ok(imported) ==> (made matches Some(dependencies)
        && imported@.dependencies == seq_union(Seq::empty(), dependencies)))
    &&& before.reliable() && !stuck && before.files().contains_key(path) && made is Some
        ==> outcome is Ok
}

/// What becomes of an import, given what the importer made of the source
/// and which dependencies it declared. An asset is handed on with its
/// metadata and a header that has the id of the metadata, the asset type
/// `ty`, the checksum, the time, and the declared dependencies, each once;
/// a failure of the importer is put on record with the id and no artifact.
pub fn imported_of<V: AssetSaver>(
    path: &str,
    metadata: AssetMetadata<V::Settings>,
    ty: AssetType,
    checksum: u32,
    modified: u64,
    declared: IdSet,
    made: Result<V::Asset, CustomError>,
) -> (imported: Result<ImportedAsset, ImportError>)
    ensures
        match made {
            Ok(_) => {
                &&& imported matches Ok(asset)
                &&& asset.wf()
                &&& asset@.id == metadata.id
                &&& asset@.ty == ty
                &&& asset@.checksum == checksum
                &&& asset@.modified == modified
                &&& asset@.dependencies == seq_union(Seq::empty(), declared@)
            },
            Err(error) => {
                &&& imported matches Err(record)
                &&& record.path@ == path@
                &&& record.id == metadata.id
                &&& record.artifact is None
                &&& record.error == ImportCause::Importer(error)
            },
        },
{
    match made {
        Ok(asset) => {
            let header = ArtifactMeta::new(
                metadata.id(),
                ty,
                checksum,
                modified,
                declared.distinct(),
            );
            Ok(ImportedAsset::new::<V>(asset, metadata, header))
        },
        Err(error) => Err(ImportError::new(path, metadata.id(), ImportCause::Importer(error))),
    }
}

/// Imports the source at `path` with `metadata`: writes the sidecar, reads
/// the source, runs the importer `I` and makes the header, with the asset
/// type `ty` that the importer is known by and the dependencies that the
/// importer declares. The import fails on the importer's side exactly
/// where the importer refuses the source, and with a reliable store on the
/// store's side only where the metadata has no sidecar or the source is not
/// there.
pub fn import_source<F: FileSystem, I: AssetImporter>(
    fs: &mut AssetFileSystem<F>,
    path: &str,
    metadata: AssetMetadata<I::Settings>,
    ty: AssetType,
) -> (imported: Result<ImportedAsset, ImportError>)
    ensures
        source_outcome(*old(fs), *final(fs), path@, metadata.id, ty, imported),
        old(fs).reliable() && imported is Err && imported->Err_0.error is Io ==> unwritable(
            metadata,
        ) || !old(fs).files().contains_key(path@),
        imported matches Ok(asset) ==> I::makes(path@, old(fs).files()[path@], metadata) matches Some(
            dependencies,
        ) && asset@.dependencies == seq_union(Seq::empty(), dependencies),
        imported is Ok ==> names_metadata(
            decode_utf8(final(fs).files()[metadata_path(path@)]),
            metadata,
        ),
        imported is Err && imported->Err_0.error is Importer ==> I::makes(
            path@,
            old(fs).files()[path@],
            metadata,
        ) is None,
        old(fs).reliable() && !unwritable(metadata) && old(fs).files().contains_key(path@)
            && I::makes(path@, old(fs).files()[path@], metadata) is Some ==> imported is Ok,
{
    proof {
        lemma_sidecar_differs(path@);
    }
    let metabytes = match fs.save_metadata(path, &metadata) {
        Ok(bytes) => bytes,
        Err(error) => {
            return Err(ImportError::new(path, metadata.id(), ImportCause::Io(error)));
        },
    };
    let bytes = match fs.read(path) {
        Ok(bytes) => bytes,
        Err(error) => {
            return Err(ImportError::new(path, metadata.id(), ImportCause::Io(error)));
        },
    };
    let mut ctx = LoadContext::new(path, bytes.as_slice(), &metadata);
    let made = I::import(&mut ctx);
    let declared = ctx.finish();
    let modified = match fs.modified_secs(path) {
        Ok(secs) => secs,
        Err(_) => 0,
    };
    let checksum = AssetFileSystem::<F>::calculate_checksum(bytes.as_slice(), metabytes.as_slice());
    imported_of::<I::Saver>(path, metadata, ty, checksum, modified, declared, made)
}

/// Whether a cause is the one of an asset of another type than the
/// importer's, or of another kind than the processor's.
pub open spec fn is_wrong_kind(cause: ImportCause) -> bool {
    cause matches ImportCause::Io(AssetIoError::InvalidData(text)) && text@
        == "The asset is of another kind."@
}

/// Whether a cause is the one of a header with more dependencies than an
/// artifact can hold.
pub open spec fn is_too_many(cause: ImportCause) -> bool {
    cause matches ImportCause::Io(AssetIoError::InvalidData(text)) && text@
        == "Too many dependencies."@
}

/// What becomes of the save of an imported asset, given the header that
/// its artifact had before and the answer of the store to the write of the
/// new artifact. After a write that was done the asset is handed on with
/// its header, the previous header, and the dependencies that the previous
/// header had and the new one lacks. A write that failed is put on record
/// with the store's error and the previous header, which is the one of the
/// artifact that still stands.
pub fn saved_of(
    path: &str,
    imported: ImportedAsset,
    previous: Option<ArtifactMeta>,
    written: Result<(), AssetIoError>,
) -> (saved: Result<SavedAsset, ImportError>)
    requires
        imported.wf(),
        previous matches Some(standing) ==> standing.wf(),
    ensures
        match written {
            Ok(_) => {
                &&& saved matches Ok(done)
                &&& done.wf()
                &&& done.new_meta() == imported@
                &&& done.old_meta() == match previous {
                    Some(standing) => Some(standing@),
                    None => None,
                }
                &&& done.removed() == match previous {
                    Some(standing) => seq_difference(
                        standing@.dependencies,
                        imported@.dependencies,
                    ),
                    None => Seq::empty(),
                }
            },
            Err(error) => {
                &&& saved matches Err(record)
                &&& record.path@ == path@
                &&& record.id == imported@.id
                &&& record.artifact == previous
                &&& record.error == ImportCause::Io(error)
            },
        },
{
    let ImportedAsset { content, artifact: header } = imported;
    match written {
        Ok(_) => {
            let removed = match &previous {
                Some(standing) => standing.removed_dependencies(&header),
                None => IdSet::new(),
            };
            proof {
                if previous is Some {
                    lemma_seq_difference(previous.unwrap()@.dependencies, header@.dependencies);
                }
            }
            Ok(
                SavedAsset {
                    meta: header,
                    prev_meta: previous,
                    removed_dependencies: removed,
                    asset: content.into_cell(),
                },
            )
        },
        Err(error) => Err(
            ImportError::new(path, header.id(), ImportCause::Io(error)).with_option_artifact(
                previous,
            ),
        ),
    }
}

/// What the save of an imported asset with the header `header`, by an
/// importer of the asset type `ty`, leaves. An asset whose header has
/// another type, and a header with more dependencies than an artifact can
/// hold, are not saved, each with its own cause and without a header on
/// record; a reliable store saves every other asset. On success the
/// artifact file of the asset holds an artifact with that header, no other
/// file has changed, and the dependencies that the previous header had and
/// the new one lacks are reported as removed; a reliable store has read the
/// previous header wherever there was one. On failure no file has changed,
/// and a header that the record carries is the one of the artifact that
/// still stands.
pub open spec fn save_outcome<F: FileSystem>(
    before: AssetFileSystem<F>,
    after: AssetFileSystem<F>,
    path: Seq<char>,
    ty: AssetType,
    header: ArtifactMetaView,
    outcome: Result<SavedAsset, ImportError>,
) -> bool {
    let place = artifact_path(before.root(), header.id);
    &&& after.root() == before.root()
    &&& after.reliable() == before.reliable()
    &&& header.ty != ty || !meta_encodable(header) ==> outcome is Err
    &&& before.reliable() && header.ty == ty && meta_encodable(header) ==> outcome is Ok
    &&& match outcome {
        Ok(saved) => {
            &&& saved.wf()
            &&& saved.new_meta() == header
            &&& after.files().contains_key(place)
            &&& after.files() == before.files().insert(place, after.files()[place])
            &&& decode_header(after.files()[place]) == Some(header)
            &&& decode_artifact(after.files()[place]) matches Some(artifact) && artifact.meta
                == header
            &&& saved.old_meta() is Some ==> before.files().contains_key(place) && decode_header(
                before.files()[place],
            ) == saved.old_meta()
            &&& saved.removed() == match saved.old_meta() {
                Some(previous) => seq_difference(previous.dependencies, header.dependencies),
                None => Seq::empty(),
            }
            &&& before.reliable() && saved.old_meta() is None ==> !(before.files().contains_key(
                place,
            ) && decode_header(before.files()[place]) is Some)
        },
        Err(record) => {
            &&& after.files() == before.files()
            &&& record.path@ == path
            &&& record.id == header.id
            &&& record.error is Io
            &&& header.ty != ty ==> is_wrong_kind(record.error) && record.artifact is None
            &&& header.ty == ty && !meta_encodable(header) ==> is_too_many(record.error)
                && record.artifact is None
            &&& record.artifact matches Some(standing) ==> before.files().contains_key(place)
                && decode_header(before.files()[place]) == Some(standing@)
        },
    }
}

/// Saves an imported asset as an importer of the asset type `ty` does:
/// reads the header that the artifact has so far, has the payload made of
/// the asset, writes the artifact, and says which dependencies are gone.
pub fn save_imported<F: FileSystem>(
    fs: &mut AssetFileSystem<F>,
    path: &str,
    ty: AssetType,
    imported: ImportedAsset,
) -> (saved: Result<SavedAsset, ImportError>)
    requires
        imported.wf(),
    ensures
        save_outcome(*old(fs), *final(fs), path@, ty, imported@, saved),
{
    let id = imported.artifact.id();
    if imported.artifact.ty().0 != ty.0 {
        return Err(ImportError::new(path, id, wrong_kind()));
    }
    if !imported.artifact.is_encodable() {
        return Err(ImportError::new(path, id, too_many()));
    }
    let previous = match fs.load_artifact_meta(&id) {
        Ok(meta) => Some(meta),
        Err(_) => None,
    };
    let payload = imported.payload();
    let artifact = Artifact::new(imported.artifact.clone(), payload);
    let bytes = artifact.into_bytes();
    let place = fs.config().artifact(&id);
    proof {
        crate::asset::artifact::lemma_artifact_round_trip(artifact@);
        crate::asset::artifact::lemma_header_independent(bytes@);
    }
    let written = fs.write(place.as_str(), bytes.as_slice());
    saved_of(path, imported, previous, written)
}

/// The operations of an importer that need its types, with the types erased.
pub(crate) trait ImportOps<F: FileSystem> {
    /// The id that the importer reads from the bytes of a sidecar, where
    /// they hold metadata of its kind of settings.
    spec fn known_id(&self, sidecar: Seq<u8>) -> Option<AssetId>;

    /// Whether the metadata that a source with the sidecar `sidecar` is
    /// imported with, which has the id `id` where the sidecar gives none,
    /// has no sidecar of the importer's kind of settings.
    spec fn stuck(&self, sidecar: Option<Seq<u8>>, id: AssetId) -> bool;

    /// What the importer makes of the source with the path `path`, the
    /// bytes `bytes` and the metadata that a source with the sidecar
    /// `sidecar` is imported with.
    spec fn makes(
        &self,
        path: Seq<char>,
        bytes: Seq<u8>,
        sidecar: Option<Seq<u8>>,
        id: AssetId,
    ) -> Option<Seq<AssetId>>;

    /// Whether the bytes `written` are the text of a sidecar that was
    /// written for the metadata that a source with the sidecar `sidecar` is
    /// imported with.
    spec fn fits(&self, written: Seq<u8>, sidecar: Option<Seq<u8>>, id: AssetId) -> bool;

    fn import(&self, fs: &mut AssetFileSystem<F>, path: &str, ty: AssetType) -> (imported:
        Result<ImportedAsset, ImportError>)
        ensures
            import_outcome(
                *old(fs),
                *final(fs),
                path@,
                if old(fs).files().contains_key(metadata_path(path@)) {
                    self.known_id(old(fs).files()[metadata_path(path@)])
                } else {
                    None
                },
                self.stuck(
                    held_at(old(fs).files(), metadata_path(path@)),
                    outcome_id(imported),
                ),
                self.makes(
                    path@,
                    old(fs).files()[path@],
                    held_at(old(fs).files(), metadata_path(path@)),
                    outcome_id(imported),
                ),
                self.fits(
                    final(fs).files()[metadata_path(path@)],
                    held_at(old(fs).files(), metadata_path(path@)),
                    outcome_id(imported),
                ),
                ty,
                imported,
            ),
    ;

    fn load(&self, artifact: Artifact) -> (loaded: Result<LoadedAsset, AssetIoError>)
        ensures
            loaded matches Ok(l) && l@ == artifact@.meta,
    ;
}

/// The second pass of an importer, with its types erased.
pub trait ProcessOps {
    fn process(&self, path: &str, imported: &mut ImportedAsset, assets: &AssetStore) -> (done:
        Result<(), ImportError>)
        requires
            assets.wf(),
        ensures
            final(imported)@ == old(imported)@,
            done matches Err(record) ==> record.path@ == path@ && record.id == old(imported)@.id
                && record.artifact is None && (record.error is Processor || is_wrong_kind(
                record.error,
            )),
    ;
}

/// The operations of the importer `I`.
pub(crate) struct TypedOps<I: AssetImporter> {
    marker: PhantomData<I>,
}

/// The second pass of the processor `P`.
pub(crate) struct TypedProcess<P: AssetProcessor> {
    marker: PhantomData<P>,
}

/// The cause of a failure on an asset of another type than the importer's,
/// or of another kind than the processor's: invalid data.
fn wrong_kind() -> (cause: ImportCause)
    ensures
        is_wrong_kind(cause),
        cause matches ImportCause::Io(error) && error is InvalidData,
{
    ImportCause::Io(AssetIoError::InvalidData(String::from_str("The asset is of another kind.")))
}

/// The cause of a failure on a header with more dependencies than an
/// artifact can hold: invalid data.
fn too_many() -> (cause: ImportCause)
    ensures
        is_too_many(cause),
        cause matches ImportCause::Io(error) && error is InvalidData,
{
    ImportCause::Io(AssetIoError::InvalidData(String::from_str("Too many dependencies.")))
}

impl<F: FileSystem, I: AssetImporter> ImportOps<F> for TypedOps<I> {
    open spec fn known_id(&self, sidecar: Seq<u8>) -> Option<AssetId> {
        bytes_id::<I::Settings>(sidecar)
    }

    open spec fn stuck(&self, sidecar: Option<Seq<u8>>, id: AssetId) -> bool {
        unwritable(used_metadata::<I::Settings>(sidecar, id))
    }

    open spec fn makes(
        &self,
        path: Seq<char>,
        bytes: Seq<u8>,
        sidecar: Option<Seq<u8>>,
        id: AssetId,
    ) -> Option<Seq<AssetId>> {
        I::makes(path, bytes, used_metadata::<I::Settings>(sidecar, id))
    }

    open spec fn fits(&self, written: Seq<u8>, sidecar: Option<Seq<u8>>, id: AssetId) -> bool {
        names_metadata(decode_utf8(written), used_metadata::<I::Settings>(sidecar, id))
    }

    /// Loads the sidecar, or takes a fresh id and the default settings
    /// where it holds no metadata, and imports the source with them.
    fn import(&self, fs: &mut AssetFileSystem<F>, path: &str, ty: AssetType) -> (imported:
        Result<ImportedAsset, ImportError>) {
        let metadata = match fs.load_metadata::<I::Settings>(path) {
            Ok(metadata) => metadata,
            Err(_) => AssetMetadata::new(AssetId::gen(), I::Settings::default_settings()),
        };
        proof {
            if fs.reliable() {
                assert(metadata == used_metadata::<I::Settings>(
                    held_at(fs.files(), metadata_path(path@)),
                    metadata.id,
                ));
            }
        }
        import_source::<F, I>(fs, path, metadata, ty)
    }

    /// Reads the asset back from the payload of an artifact.
    fn load(&self, artifact: Artifact) -> (loaded: Result<LoadedAsset, AssetIoError>) {
        let asset = I::Saver::load(artifact.asset());
        let (meta, _) = artifact.into_parts();
        Ok(LoadedAsset::new(asset, meta))
    }
}

impl<P: AssetProcessor> ProcessOps for TypedProcess<P> {
    fn process(&self, path: &str, imported: &mut ImportedAsset, assets: &AssetStore) -> (done:
        Result<(), ImportError>) {
        let id = imported.artifact.id();
        match imported.mutate::<
            <P::Importer as AssetImporter>::Asset,
            <P::Importer as AssetImporter>::Settings,
        >() {
            Some((asset, metadata, artifact)) => {
                let mut ctx = ProcessContext::new(assets, metadata, artifact.dependencies());
                match P::process(asset, &mut ctx) {
                    Ok(_) => Ok(()),
                    Err(error) => Err(ImportError::new(path, id, ImportCause::Processor(error))),
                }
            },
            None => Err(ImportError::new(path, id, wrong_kind())),
        }
    }
}

/// An importer behind the four operations that the registry needs of it,
/// with the asset type that it is known by: the type that it gives the
/// headers of the assets it imports, and the only one that it saves.
#[verifier::reject_recursive_types(F)]
pub struct ErasedAssetImporter<F: FileSystem> {
    ops: Box<dyn ImportOps<F>>,
    ty: AssetType,
    pub process: Option<Box<dyn ProcessOps>>,
}

impl<F: FileSystem> ErasedAssetImporter<F> {
    /// Whether a processor is attached.
    pub closed spec fn has_processor(&self) -> bool {
        self.process is Some
    }

    /// Whether a processor is attached.
    pub fn processes(&self) -> (yes: bool)
        ensures
            yes == self.has_processor(),
    {
        self.process.is_some()
    }

    /// The asset type that the importer is known by.
    pub closed spec fn asset_type(&self) -> AssetType {
        self.ty
    }

    /// The asset type that the importer is known by.
    pub fn ty(&self) -> (ty: AssetType)
        ensures
            ty == self.asset_type(),
    {
        self.ty
    }

    pub fn new<I: AssetImporter>() -> (importer: ErasedAssetImporter<F>)
        ensures
            !importer.has_processor(),
            forall|sidecar: Seq<u8>| #[trigger]
                importer.known_id(sidecar) == bytes_id::<I::Settings>(sidecar),
            forall|sidecar: Option<Seq<u8>>, id: AssetId| #[trigger]
                importer.stuck(sidecar, id) == unwritable(
                    used_metadata::<I::Settings>(sidecar, id),
                ),
            forall|path: Seq<char>, bytes: Seq<u8>, sidecar: Option<Seq<u8>>, id: AssetId|
                #[trigger] importer.makes(path, bytes, sidecar, id) == I::makes(
                    path,
                    bytes,
                    used_metadata::<I::Settings>(sidecar, id),
                ),
            forall|written: Seq<u8>, sidecar: Option<Seq<u8>>, id: AssetId| #[trigger]
                importer.fits(written, sidecar, id) == names_metadata(
                    decode_utf8(written),
                    used_metadata::<I::Settings>(sidecar, id),
                ),
    {
        ErasedAssetImporter {
            ops: Box::new(TypedOps::<I> { marker: PhantomData }),
            ty: AssetType::from::<I::Asset>(),
            process: None,
        }
    }

    /// Attaches the processor `P`, in place of the one attached before.
    pub fn set_processer<P: AssetProcessor>(&mut self)
        ensures
            final(self).has_processor(),
            final(self).asset_type() == old(self).asset_type(),
            forall|sidecar: Seq<u8>| #[trigger]
                final(self).known_id(sidecar) == old(self).known_id(sidecar),
            forall|sidecar: Option<Seq<u8>>, id: AssetId| #[trigger]
                final(self).stuck(sidecar, id) == old(self).stuck(sidecar, id),
            forall|path: Seq<char>, bytes: Seq<u8>, sidecar: Option<Seq<u8>>, id: AssetId|
                #[trigger] final(self).makes(path, bytes, sidecar, id) == old(self).makes(
                    path,
                    bytes,
                    sidecar,
                    id,
                ),
            forall|written: Seq<u8>, sidecar: Option<Seq<u8>>, id: AssetId| #[trigger]
                final(self).fits(written, sidecar, id) == old(self).fits(written, sidecar, id),
    {
        self.process = Some(Box::new(TypedProcess::<P> { marker: PhantomData }));
    }

    /// The id that the importer reads from the bytes of a sidecar, where
    /// they hold metadata of its kind of settings.
    pub closed spec fn known_id(&self, sidecar: Seq<u8>) -> Option<AssetId> {
        self.ops.known_id(sidecar)
    }

    /// Whether the metadata that a source with the sidecar `sidecar` is
    /// imported with, which has the id `id` where the sidecar gives none,
    /// has no sidecar of the importer's kind of settings.
    pub closed spec fn stuck(&self, sidecar: Option<Seq<u8>>, id: AssetId) -> bool {
        self.ops.stuck(sidecar, id)
    }

    /// What the importer makes of the source with the path `path`, the
    /// bytes `bytes` and the metadata that a source with the sidecar
    /// `sidecar` is imported with: the dependencies that it declares, or
    /// nothing where it refuses the source.
    pub closed spec fn makes(
        &self,
        path: Seq<char>,
        bytes: Seq<u8>,
        sidecar: Option<Seq<u8>>,
        id: AssetId,
    ) -> Option<Seq<AssetId>> {
        self.ops.makes(path, bytes, sidecar, id)
    }

    /// Whether the bytes `written` are the text of a sidecar that was
    /// written for the metadata that a source with the sidecar `sidecar` is
    /// imported with: the id and the settings that the sidecar held, or the
    /// id `id` and the default settings.
    pub closed spec fn fits(&self, written: Seq<u8>, sidecar: Option<Seq<u8>>, id: AssetId) -> bool {
        self.ops.fits(written, sidecar, id)
    }

    /// The id that the importer reads from the sidecar of the source at
    /// `path`, where the sidecar is there and holds metadata.
    pub open spec fn stored_id(&self, files: Map<Seq<char>, Seq<u8>>, path: Seq<char>) -> Option<
        AssetId,
    > {
        if files.contains_key(metadata_path(path)) {
            self.known_id(files[metadata_path(path)])
        } else {
            None
        }
    }

    pub fn import(&self, fs: &mut AssetFileSystem<F>, path: &str) -> (imported: Result<
        ImportedAsset,
        ImportError,
    >)
        ensures
            import_outcome(
                *old(fs),
                *final(fs),
                path@,
                self.stored_id(old(fs).files(), path@),
                self.stuck(held_at(old(fs).files(), metadata_path(path@)), outcome_id(imported)),
                self.makes(
                    path@,
                    old(fs).files()[path@],
                    held_at(old(fs).files(), metadata_path(path@)),
                    outcome_id(imported),
                ),
                self.fits(
                    final(fs).files()[metadata_path(path@)],
                    held_at(old(fs).files(), metadata_path(path@)),
                    outcome_id(imported),
                ),
                self.asset_type(),
                imported,
            ),
    {
        self.ops.import(fs, path, self.ty)
    }

    /// Runs the processor on `imported`, where one is attached.
    pub fn process(&self, path: &str, imported: &mut ImportedAsset, assets: &AssetStore) -> (done:
        Result<(), ImportError>)
        requires
            assets.wf(),
        ensures
            final(imported)@ == old(imported)@,
            !self.has_processor() ==> done is Ok,
            done matches Err(record) ==> record.path@ == path@ && record.id == old(imported)@.id
                && record.artifact is None && (record.error is Processor || is_wrong_kind(
                record.error,
            )),
    {
        match &self.process {
            Some(processor) => processor.process(path, imported, assets),
            None => Ok(()),
        }
    }

    pub fn save(&self, fs: &mut AssetFileSystem<F>, path: &str, imported: ImportedAsset) -> (saved:
        Result<SavedAsset, ImportError>)
        requires
            imported.wf(),
        ensures
            save_outcome(*old(fs), *final(fs), path@, self.asset_type(), imported@, saved),
    {
        save_imported(fs, path, self.ty, imported)
    }

    pub fn load(&self, artifact: Artifact) -> (loaded: Result<LoadedAsset, AssetIoError>)
        ensures
            loaded matches Ok(l) && l@ == artifact@.meta,
    {
        self.ops.load(artifact)
    }
}

/// The extension table that pairs of extension and type stand for: a later
/// pair takes the place of an earlier one with the same extension.
pub open spec fn extension_table(pairs: Seq<(Seq<char>, AssetType)>) -> Map<Seq<char>, AssetType>
    decreases pairs.len(),
{
    if pairs.len() == 0 {
        Map::empty()
    } else {
        extension_table(pairs.drop_last()).insert(pairs.last().0, pairs.last().1)
    }
}

/// `table` with each of `extensions` leading to `ty`.
pub open spec fn with_extensions(
    table: Map<Seq<char>, AssetType>,
    extensions: Seq<Seq<char>>,
    ty: AssetType,
) -> Map<Seq<char>, AssetType>
    decreases extensions.len(),
{
    if extensions.len() == 0 {
        table
    } else {
        with_extensions(table, extensions.drop_last(), ty).insert(extensions.last(), ty)
    }
}

/// The texts of a list of strings.
pub open spec fn texts(list: Seq<String>) -> Seq<Seq<char>> {
    list.map_values(|text: String| text@)
}

/// The registry of the importers: by asset type, and by the extension of the
/// sources that they take.
#[verifier::reject_recursive_types(F)]
pub struct AssetImporters<F: FileSystem> {
    importers: DenseMap<u64, ErasedAssetImporter<F>>,
    types: Vec<(String, AssetType)>,
}

impl<F: FileSystem> AssetImporters<F> {
    /// The index of the registry is sound.
    pub closed spec fn wf(&self) -> bool {
        self.importers.wf()
    }

    /// The asset type that each registered extension leads to.
    pub closed spec fn extensions(&self) -> Map<Seq<char>, AssetType> {
        extension_table(self.types@.map_values(|pair: (String, AssetType)| (pair.0@, pair.1)))
    }

    /// The importers by the asset type under which they are registered.
    pub closed spec fn registered(&self) -> Map<u64, ErasedAssetImporter<F>> {
        self.importers@
    }

    pub fn new() -> (registry: AssetImporters<F>)
        ensures
            registry.wf(),
            registry.extensions() == Map::<Seq<char>, AssetType>::empty(),
            registry.registered() == Map::<u64, ErasedAssetImporter<F>>::empty(),
    {
        let registry = AssetImporters { importers: DenseMap::new(), types: Vec::new() };
        assert(registry.types@.map_values(|pair: (String, AssetType)| (pair.0@, pair.1)).len()
            == 0);
        registry
    }

    /// Enters `importer` under the type `ty`, and `ty` under each of `extensions`.
    pub fn insert(
        &mut self,
        ty: AssetType,
        importer: ErasedAssetImporter<F>,
        extensions: Vec<String>,
    )
        requires
            old(self).wf(),
        ensures
            final(self).wf(),
            final(self).registered() == old(self).registered().insert(ty.0, importer),
            final(self).extensions() == with_extensions(
                old(self).extensions(),
                texts(extensions@),
                ty,
            ),
    {
        self.importers.insert(ty.0, importer);
        let ghost view = |pair: (String, AssetType)| (pair.0@, pair.1);
        let mut i: usize = 0;
        while i < extensions.len()
            invariant
                i <= extensions@.len(),
                self.wf(),
                self.registered() == old(self).registered().insert(ty.0, importer),
                view == |pair: (String, AssetType)| (pair.0@, pair.1),
                extension_table(self.types@.map_values(view)) == with_extensions(
                    old(self).extensions(),
                    texts(extensions@).take(i as int),
                    ty,
                ),
            decreases extensions@.len() - i,
        {
            let ghost before = self.types@.map_values(view);
            self.types.push((extensions[i].clone(), ty));
            proof {
                let after = self.types@.map_values(view);
                assert(after.drop_last() =~= before);
                assert(after.last() == (extensions@[i as int]@, ty));
                assert(texts(extensions@).take(i + 1).drop_last() =~= texts(extensions@).take(
                    i as int,
                ));
                assert(texts(extensions@).take(i + 1).last() == extensions@[i as int]@);
            }
            i += 1;
        }
        proof {
            assert(texts(extensions@).take(extensions@.len() as int) =~= texts(extensions@));
        }
    }

    /// Registers the importer `I` under the type of its assets and under its extensions.
    pub fn register<I: AssetImporter>(&mut self)
        requires
            old(self).wf(),
        ensures
            final(self).wf(),
            exists|ty: AssetType, extensions: Seq<Seq<char>>|
                final(self).registered().dom() == old(self).registered().dom().insert(ty.0)
                    && #[trigger] with_extensions(old(self).extensions(), extensions, ty)
                    == final(self).extensions() && (forall|sidecar: Seq<u8>| #[trigger]
                    final(self).registered()[ty.0].known_id(sidecar) == bytes_id::<I::Settings>(
                        sidecar,
                    )),
            forall|ty: u64| #[trigger]
                old(self).registered().contains_key(ty) ==> final(self).registered().contains_key(
                    ty,
                ),
    {
        let ty = AssetType::from::<I::Asset>();
        let importer = ErasedAssetImporter::new::<I>();
        let extensions = I::extensions();
        let ghost names = texts(extensions@);
        self.insert(ty, importer, extensions);
        proof {
            assert(self.registered().dom() =~= old(self).registered().dom().insert(ty.0));
            assert(with_extensions(old(self).extensions(), names, ty) == self.extensions());
        }
    }

    /// The importer registered under the type `ty`.
    pub fn importer(&self, ty: AssetType) -> (importer: Option<&ErasedAssetImporter<F>>)
        requires
            self.wf(),
        ensures
            match importer {
                Some(found) => self.registered().contains_key(ty.0) && *found
                    == self.registered()[ty.0],
                None => !self.registered().contains_key(ty.0),
            },
    {
        self.importers.get(&ty.0)
    }

    /// The asset type that the extension `ext` leads to.
    pub fn type_of_ext(&self, ext: &str) -> (ty: Option<AssetType>)
        ensures
            match ty {
                Some(found) => self.extensions().contains_key(ext@) && self.extensions()[ext@]
                    == found,
                None => !self.extensions().contains_key(ext@),
            },
    {
        let ghost view = |pair: (String, AssetType)| (pair.0@, pair.1);
        let ghost pairs = self.types@.map_values(view);
        let mut i: usize = self.types.len();
        proof {
            assert(pairs.take(i as int) =~= pairs);
        }
        while i > 0
            invariant
                i <= self.types@.len(),
                view == |pair: (String, AssetType)| (pair.0@, pair.1),
                pairs == self.types@.map_values(view),
                extension_table(pairs).contains_key(ext@) == extension_table(
                    pairs.take(i as int),
                ).contains_key(ext@),
                extension_table(pairs).contains_key(ext@) ==> extension_table(pairs)[ext@]
                    == extension_table(pairs.take(i as int))[ext@],
            decreases i,
        {
            proof {
                assert(pairs.take(i as int).drop_last() =~= pairs.take(i - 1));
                assert(pairs.take(i as int).last() == pairs[i - 1]);
            }
            proof {
                assert(pairs[i - 1] == (self.types@[i - 1].0@, self.types@[i - 1].1));
            }
            if same_text(self.types[i - 1].0.as_str(), ext) {
                return Some(self.types[i - 1].1);
            }
            i -= 1;
        }
        proof {
            assert(pairs.take(0).len() == 0);
        }
        None
    }

    /// The importer for the sources with the extension `ext`.
    pub fn importer_by_ext(&self, ext: &str) -> (importer: Option<&ErasedAssetImporter<F>>)
        requires
            self.wf(),
        ensures
            match importer {
                Some(found) => self.extensions().contains_key(ext@)
                    && self.registered().contains_key(self.extensions()[ext@].0) && *found
                    == self.registered()[self.extensions()[ext@].0],
                None => !self.extensions().contains_key(ext@) || !self.registered().contains_key(
                    self.extensions()[ext@].0,
                ),
            },
    {
        match self.type_of_ext(ext) {
            Some(ty) => self.importer(ty),
            None => None,
        }
    }
}

} // verus!
