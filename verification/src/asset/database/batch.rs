//! The import of sources: one at a time, in batches, and round after round
//! until no asset asks to be imported again.

use vstd::prelude::*;
use crate::asset::AssetId;
use crate::asset::artifact::{decode_artifact, decode_header};
use crate::asset::config::{artifact_path, dependents_path, metadata_path};
use crate::asset::database::AssetDatabase;
use crate::asset::database::dependents::{
    apply_table, dropped, header_deps, lemma_difference_contains, newly, noted, previous_deps,
    record, recorded_dependents, requeued, same_at, table_wf, transposed, DependentUpdates,
    SavedSummary,
};
use crate::asset::database::importer::{
    is_too_many, is_wrong_kind, texts, AssetImporters, AssetStore, ErasedAssetImporter, ImportCause,
    ImportError, SavedAsset,
};
use crate::asset::database::library::{path_of, without, AssetLibrary};
use crate::asset::database::runs::{
    headers_so_far, imported_so_far, lemma_asks_none, lemma_asks_then, lemma_batch_asks,
    lemma_batch_law, lemma_batch_run, lemma_first_failed, lemma_first_none, lemma_first_saved,
    lemma_first_then, lemma_headers_failed, lemma_headers_saved, lemma_id_kept,
    lemma_id_kept_failed, lemma_ids_kept_then, lemma_import_failed, lemma_import_saved,
    lemma_no_report, lemma_no_run, lemma_nothing_asked, lemma_nothing_imported, lemma_nothing_kept,
    lemma_nothing_to_import, lemma_report_failed, lemma_report_saved, lemma_reported_fewer,
    lemma_reports_join, lemma_runs_then, lemma_table_recorded, lemma_unmixed_parts, table_follows,
};
use crate::asset::io::{checksum_of, AssetFileSystem, FileSystem};
use crate::asset::path::{extension_of, PathExt};
use crate::asset::set::{lemma_seq_union, seq_difference, seq_union, IdSet};
use crate::asset::sidecar::{held_at, written_for};
use crate::dense::DenseMap;

verus! {

/// What became of a batch of sources: the saved ones in the order of their
/// import, the failures, and the ids of the assets to import again.
pub struct ImportReport {
    pub saved: Vec<SavedSummary>,
    pub errors: Vec<ImportError>,
    pub dependents: IdSet,
    /// The ids whose file of dependents the store refused to change.
    pub unrecorded: Vec<AssetId>,
    pub chunks: usize,
}

/// What a full import did: how many rounds and chunks it took, the saved
/// sources in the order of their import, and the failures.
pub struct FullImportReport {
    pub rounds: usize,
    pub chunks: usize,
    pub saved: Vec<SavedSummary>,
    pub errors: Vec<ImportError>,
    /// The ids whose file of dependents the store refused to change.
    pub unrecorded: Vec<AssetId>,
    /// The ids that the last round asked to import again: none, unless the
    /// count of the rounds came to its end.
    pub pending: IdSet,
}

/// The number of sources that are imported in one chunk.
pub const CHUNK_SIZE: usize = 250;

/// The place of an artifact is never that of a sidecar: the one ends in a
/// digit, the other in a letter.
pub proof fn lemma_artifact_is_no_sidecar(root: Seq<char>, id: AssetId, path: Seq<char>)
    ensures
        artifact_path(root, id) != metadata_path(path),
{
    reveal_strlit("meta");
    let name = crate::asset::decimal(id.0 as nat);
    let directory = crate::asset::config::artifacts_path(root);
    assert(name.len() > 0 && name.last() != 'a') by {
        reveal_with_fuel(crate::asset::decimal, 2);
    }
    let place = artifact_path(root, id);
    assert(place.len() > 0 && place.last() == name.last());
    let sidecar = metadata_path(path);
    assert(sidecar.last() == "meta"@.last());
    assert("meta"@.last() == 'a');
}

/// Whether the asset of `id` can be loaded: the files below `root` hold an
/// artifact for it, and an importer is registered under the artifact's type.
pub open spec fn loadable<F: FileSystem>(
    files: Map<Seq<char>, Seq<u8>>,
    root: Seq<char>,
    importers: AssetImporters<F>,
    id: AssetId,
) -> bool {
    let place = artifact_path(root, id);
    files.contains_key(place) && match crate::asset::artifact::decode_artifact(files[place]) {
        Some(artifact) => importers.registered().contains_key(artifact.meta.ty.0),
        None => false,
    }
}

/// Loads the assets of `ids` that the store lacks from their artifacts. An
/// id without a readable artifact, or whose asset type has no importer, is
/// passed over. From a reliable store every id that can be loaded is loaded.
pub fn load_import_dependencies<F: FileSystem>(
    ids: &IdSet,
    fs: &AssetFileSystem<F>,
    db: &AssetDatabase<F>,
    assets: &mut AssetStore,
)
    requires
        old(assets).wf(),
        db.wf(),
    ensures
        final(assets).wf(),
        forall|id: AssetId| #[trigger]
            old(assets)@.contains_key(id) ==> final(assets)@.contains_key(id) && final(assets)@[id]
                == old(assets)@[id],
        forall|id: AssetId| #[trigger]
            final(assets)@.contains_key(id) && !old(assets)@.contains_key(id) ==> {
                &&& ids@.contains(id)
                &&& fs.files().contains_key(artifact_path(fs.root(), id))
                &&& decode_header(fs.files()[artifact_path(fs.root(), id)]) == Some(
                    final(assets)@[id]@,
                )
                &&& db.importers.registered().contains_key(final(assets)@[id]@.ty.0)
            },
        fs.reliable() ==> forall|id: AssetId|
            ids@.contains(id) && loadable(fs.files(), fs.root(), db.importers, id)
                ==> #[trigger] final(assets)@.contains_key(id),
{
    let importers = db.importers();
    let mut i: usize = 0;
    while i < ids.len()
        invariant
            i <= ids@.len(),
            assets.wf(),
            db.wf(),
            *importers == db.importers,
            forall|id: AssetId| #[trigger]
                old(assets)@.contains_key(id) ==> assets@.contains_key(id) && assets@[id]
                    == old(assets)@[id],
            forall|id: AssetId| #[trigger]
                assets@.contains_key(id) && !old(assets)@.contains_key(id) ==> {
                    &&& ids@.contains(id)
                    &&& fs.files().contains_key(artifact_path(fs.root(), id))
                    &&& decode_header(fs.files()[artifact_path(fs.root(), id)]) == Some(
                        assets@[id]@,
                    )
                    &&& db.importers.registered().contains_key(assets@[id]@.ty.0)
                },
            fs.reliable() ==> forall|k: int|
                0 <= k < i && loadable(fs.files(), fs.root(), db.importers, ids@[k])
                    ==> assets@.contains_key(#[trigger] ids@[k]),
        decreases ids@.len() - i,
    {
        let id = ids.get(i);
        i += 1;
        if assets.contains(&id) {
            continue;
        }
        let artifact = match fs.load_artifact(&id) {
            Ok(artifact) => artifact,
            Err(_) => {
                continue;
            },
        };
        let importer = match importers.importer(artifact.meta().ty()) {
            Some(importer) => importer,
            None => {
                continue;
            },
        };
        proof {
            crate::asset::artifact::lemma_header_independent(
                fs.files()[artifact_path(fs.root(), id)],
            );
        }
        match importer.load(artifact) {
            Ok(loaded) => {
                assert(ids@[i - 1] == id);
                assets.insert(id, loaded);
            },
            Err(_) => {
                continue;
            },
        }
    }
}

/// Whether the registry has an importer for the source at `path`: the path
/// has an extension, the extension leads to an asset type, and an importer
/// is registered under that type.
pub open spec fn has_importer<F: FileSystem>(
    importers: AssetImporters<F>,
    path: Seq<char>,
) -> bool {
    match extension_of(path) {
        Some(ext) => {
            &&& importers.extensions().contains_key(ext)
            &&& importers.registered().contains_key(importers.extensions()[ext].0)
        },
        None => false,
    }
}

/// Whether the cause of a failure fits the path of its record: the cause is
/// a missing extension exactly when the path has none, and a missing
/// importer exactly when the path has an extension that the registry has no
/// importer for; such a record names the extension, no id and no artifact.
pub open spec fn cause_fits<F: FileSystem>(
    importers: AssetImporters<F>,
    record: ImportError,
) -> bool {
    &&& record.error is NoExtension <==> extension_of(record.path@) is None
    &&& record.error is NoImporter <==> extension_of(record.path@) is Some && !has_importer(
        importers,
        record.path@,
    )
    &&& record.error matches ImportCause::NoImporter(ext) ==> extension_of(record.path@) == Some(
        ext@,
    )
    &&& !has_importer(importers, record.path@) ==> record.artifact is None && record.id
        == AssetId(0)
}

/// Whether the failure of the import of the source at `path` has its
/// reason in what was there before the import: the registry has no importer
/// for the source, the source is not there, the metadata that it is
/// imported with has no sidecar, the importer refuses the source or
/// declares more dependencies than an artifact can hold, or a processor is
/// attached, which may fail.
pub open spec fn explained<F: FileSystem>(
    importers: AssetImporters<F>,
    files: Map<Seq<char>, Seq<u8>>,
    path: Seq<char>,
    record: ImportError,
) -> bool {
    ||| !has_importer(importers, path)
    ||| !files.contains_key(path)
    ||| stuck_at(importers, files, path, record.id)
    ||| match made_at(importers, files, path, record.id) {
        Some(dependencies) => 36 + 16 * seq_union(Seq::empty(), dependencies).len() > usize::MAX,
        None => true,
    }
    ||| importer_at(importers, path).has_processor()
}

/// Whether the summary of the source at `path` has the dependencies that
/// the importer of the source declares.
pub open spec fn as_made<F: FileSystem>(
    importers: AssetImporters<F>,
    files: Map<Seq<char>, Seq<u8>>,
    path: Seq<char>,
    summary: SavedSummary,
) -> bool {
    made_at(importers, files, path, summary.id) matches Some(dependencies)
        && summary.dependencies@ == seq_union(Seq::empty(), dependencies)
}

/// What a run on a reliable store makes of the first of its sources, which
/// it imports from the files as they were before the run: the first summary
/// is of that source and has the dependencies that its importer declares,
/// or the first record is of that source and the failure has its reason.
#[verifier::opaque]
pub open spec fn first_outcome<F: FileSystem>(
    importers: AssetImporters<F>,
    files: Map<Seq<char>, Seq<u8>>,
    paths: Seq<String>,
    saved: Seq<SavedSummary>,
    errors: Seq<ImportError>,
) -> bool {
    paths.len() > 0 ==> {
        ||| saved.len() > 0 && saved[0].path@ == paths[0]@ && as_made(
            importers,
            files,
            paths[0]@,
            saved[0],
        )
        ||| errors.len() > 0 && errors[0].path@ == paths[0]@ && explained(
            importers,
            files,
            paths[0]@,
            errors[0],
        )
    }
}

/// The id that the importer of the registry for the source at `path` reads
/// from the sidecar of the source, where the registry has an importer, the
/// sidecar is there and it holds metadata of the importer's kind.
#[verifier::opaque]
pub open spec fn sidecar_id<F: FileSystem>(
    importers: AssetImporters<F>,
    files: Map<Seq<char>, Seq<u8>>,
    path: Seq<char>,
) -> Option<AssetId> {
    match extension_of(path) {
        Some(ext) => if has_importer(importers, path) {
            importers.registered()[importers.extensions()[ext].0].stored_id(files, path)
        } else {
            None
        },
        None => None,
    }
}

/// The importer that the registry has for the source at `path`, where it
/// has one.
pub open spec fn importer_at<F: FileSystem>(
    importers: AssetImporters<F>,
    path: Seq<char>,
) -> ErasedAssetImporter<F> {
    importers.registered()[importers.extensions()[extension_of(path)->Some_0].0]
}

/// Whether the metadata that the source at `path` is imported with, which
/// has the id `id` where the sidecar gives none, has no sidecar of the kind
/// of the importer that the registry has for the source.
pub open spec fn stuck_at<F: FileSystem>(
    importers: AssetImporters<F>,
    files: Map<Seq<char>, Seq<u8>>,
    path: Seq<char>,
    id: AssetId,
) -> bool {
    importer_at(importers, path).stuck(held_at(files, metadata_path(path)), id)
}

/// What the importer that the registry has for the source at `path` makes
/// of the source with the metadata that it is imported with: the
/// dependencies that it declares, or nothing where it refuses the source.
pub open spec fn made_at<F: FileSystem>(
    importers: AssetImporters<F>,
    files: Map<Seq<char>, Seq<u8>>,
    path: Seq<char>,
    id: AssetId,
) -> Option<Seq<AssetId>> {
    importer_at(importers, path).makes(
        path,
        files[path],
        held_at(files, metadata_path(path)),
        id,
    )
}

/// Whether nothing has changed from `before` to `after` but, at most, the
/// sidecar of the source at `path`, which is then there.
pub open spec fn sidecar_at_most(
    before: Map<Seq<char>, Seq<u8>>,
    after: Map<Seq<char>, Seq<u8>>,
    path: Seq<char>,
) -> bool {
    let sidecar = metadata_path(path);
    after == before || (after.contains_key(sidecar) && after == before.insert(
        sidecar,
        after[sidecar],
    ))
}

/// Imports the source at `path`: finds the importer by the extension, runs
/// it, runs its processor, if it has one, on the asset with the declared
/// dependencies loaded, and saves the artifact.
#[verifier::rlimit(40)]
pub fn import_asset<F: FileSystem>(
    path: &str,
    fs: &mut AssetFileSystem<F>,
    db: &AssetDatabase<F>,
    assets: &mut AssetStore,
) -> (saved: Result<SavedAsset, ImportError>)
    requires
        old(assets).wf(),
        db.wf(),
    ensures
        final(assets).wf(),
        final(fs).root() == old(fs).root(),
        final(fs).reliable() == old(fs).reliable(),
        forall|id: AssetId| #[trigger]
            old(assets)@.contains_key(id) ==> final(assets)@.contains_key(id) && final(assets)@[id]
                == old(assets)@[id],
        !has_importer(db.importers, path@) ==> saved is Err && final(fs).files() == old(
            fs,
        ).files() && final(assets)@ == old(assets)@,
        saved matches Err(record) ==> record.path@ == path@ && cause_fits(db.importers, record)
            && sidecar_at_most(old(fs).files(), final(fs).files(), path@),
        saved matches Err(record) ==> (record.artifact matches Some(standing) ==> old(
            fs,
        ).files().contains_key(artifact_path(old(fs).root(), record.id)) && decode_header(
            old(fs).files()[artifact_path(old(fs).root(), record.id)],
        ) == Some(standing@)),
        old(fs).reliable() ==> (saved matches Err(record) ==> (record.error is Io ==> {
            ||| stuck_at(db.importers, old(fs).files(), path@, record.id)
            ||| !old(fs).files().contains_key(path@)
            ||| is_wrong_kind(record.error) && importer_at(db.importers, path@).has_processor()
            ||| is_too_many(record.error)
        })),
        old(fs).reliable() ==> (saved matches Err(record) ==> explained(
            db.importers,
            old(fs).files(),
            path@,
            record,
        )),
        old(fs).reliable() ==> (saved matches Err(record) ==> (record.error is Importer
            ==> made_at(db.importers, old(fs).files(), path@, record.id) is None)),
        old(fs).reliable() ==> (saved matches Err(record) ==> (record.error is Processor
            ==> importer_at(db.importers, path@).has_processor())),
        old(fs).reliable() ==> (saved matches Ok(asset) ==> (made_at(
            db.importers,
            old(fs).files(),
            path@,
            asset.new_meta().id,
        ) matches Some(dependencies) && asset.new_meta().dependencies == seq_union(
            Seq::empty(),
            dependencies,
        ))),
        saved matches Ok(asset) ==> asset.new_meta().ty == importer_at(
            db.importers,
            path@,
        ).asset_type(),
        old(fs).reliable() ==> (saved matches Ok(asset) ==> importer_at(db.importers, path@).fits(
            final(fs).files()[metadata_path(path@)],
            held_at(old(fs).files(), metadata_path(path@)),
            asset.new_meta().id,
        )),
        old(fs).reliable() ==> (sidecar_id(db.importers, old(fs).files(), path@) matches Some(id)
            ==> match saved {
            Ok(asset) => asset.new_meta().id == id,
            Err(record) => record.id == id,
        }),
        saved matches Ok(asset) ==> {
            let sidecar = metadata_path(path@);
            let place = artifact_path(old(fs).root(), asset.new_meta().id);
            &&& asset.wf()
            &&& old(fs).files().contains_key(path@)
            &&& final(fs).files().contains_key(sidecar)
            &&& final(fs).files().contains_key(place)
            &&& final(fs).files() == old(fs).files().insert(
                sidecar,
                final(fs).files()[sidecar],
            ).insert(place, final(fs).files()[place])
            &&& decode_header(final(fs).files()[place]) == Some(asset.new_meta())
            &&& decode_artifact(final(fs).files()[place]) matches Some(artifact) && artifact.meta
                == asset.new_meta()
            &&& has_importer(db.importers, path@)
            &&& written_for(final(fs).files()[sidecar], asset.new_meta().id)
            &&& asset.new_meta().checksum == checksum_of(
                old(fs).files()[path@],
                final(fs).files()[sidecar],
            )
            &&& asset.removed() == match asset.old_meta() {
                Some(previous) => seq_difference(
                    previous.dependencies,
                    asset.new_meta().dependencies,
                ),
                None => Seq::empty(),
            }
            &&& asset.old_meta() is Some ==> old(fs).files().contains_key(place) && decode_header(
                old(fs).files()[place],
            ) == asset.old_meta()
            &&& old(fs).reliable() && asset.old_meta() is None ==> !(old(fs).files().contains_key(
                place,
            ) && decode_header(old(fs).files()[place]) is Some)
        },
{
    proof {
        reveal(sidecar_id);
    }
    let ext = match path.ext() {
        Some(ext) => ext,
        None => {
            return Err(ImportError::new(path, AssetId::default(), ImportCause::NoExtension));
        },
    };
    let importer = match db.importers().importer_by_ext(ext.as_str()) {
        Some(importer) => importer,
        None => {
            return Err(ImportError::new(path, AssetId::default(), ImportCause::NoImporter(ext)));
        },
    };
    let mut imported = match importer.import(fs, path) {
        Ok(imported) => imported,
        Err(record) => {
            return Err(record);
        },
    };
    if importer.processes() {
        load_import_dependencies(imported.artifact().dependencies(), fs, db, assets);
        match importer.process(path, &mut imported, assets) {
            Ok(_) => {},
            Err(record) => {
                return Err(record);
            },
        }
    }
    proof {
        lemma_artifact_is_no_sidecar(fs.root(), imported@.id, path@);
    }
    let ghost middle = fs.files();
    let saved = importer.save(fs, path, imported);
    proof {
        if saved is Ok {
            let sidecar = metadata_path(path@);
            let place = artifact_path(old(fs).root(), saved.unwrap().new_meta().id);
            assert(fs.files() =~= old(fs).files().insert(sidecar, fs.files()[sidecar]).insert(
                place,
                fs.files()[place],
            ));
        }
    }
    saved
}

/// Whether no summary before the one at `i` is of the same asset.
pub open spec fn is_first(saved: Seq<SavedSummary>, i: int) -> bool {
    forall|j: int| 0 <= j < i ==> (#[trigger] saved[j]).id != saved[i].id
}

/// Whether no summary after the one at `i` is of the same asset.
pub open spec fn is_last(saved: Seq<SavedSummary>, i: int) -> bool {
    forall|j: int| i < j < saved.len() ==> (#[trigger] saved[j]).id != saved[i].id
}

/// Whether the removed dependencies of each summary are the previous ones
/// without the new ones.
pub open spec fn removals_fit(saved: Seq<SavedSummary>) -> bool {
    forall|i: int|
        0 <= i < saved.len() ==> (#[trigger] saved[i]).removed@ == seq_difference(
            previous_deps(saved[i]),
            saved[i].dependencies@,
        )
}

/// Whether the previous dependencies of the first summary of each asset,
/// where it has some, are those of the header that the asset had before
/// the run.
pub open spec fn firsts_read(
    before: Map<Seq<char>, Seq<u8>>,
    root: Seq<char>,
    saved: Seq<SavedSummary>,
) -> bool {
    forall|i: int|
        0 <= i < saved.len() && is_first(saved, i) && (#[trigger] saved[i]).previous is Some
            ==> header_deps(before, root, saved[i].id) == previous_deps(saved[i])
}

/// Whether the header of each saved asset names the dependencies of the
/// last summary of the asset.
pub open spec fn lasts_written(
    after: Map<Seq<char>, Seq<u8>>,
    root: Seq<char>,
    saved: Seq<SavedSummary>,
) -> bool {
    forall|i: int|
        0 <= i < saved.len() && is_last(saved, i) ==> header_deps(
            after,
            root,
            (#[trigger] saved[i]).id,
        ) == saved[i].dependencies@
}

/// Whether the artifact of each asset that the run did not save is as it
/// was.
pub open spec fn others_kept(
    before: Map<Seq<char>, Seq<u8>>,
    after: Map<Seq<char>, Seq<u8>>,
    root: Seq<char>,
    saved: Seq<SavedSummary>,
) -> bool {
    forall|id: AssetId|
        (forall|i: int| 0 <= i < saved.len() ==> (#[trigger] saved[i]).id != id)
            ==> #[trigger] same_at(after, before, artifact_path(root, id))
}

/// What a run of imports leaves of the headers, given the summaries of the
/// saved sources in the order of their import.
///
/// - The removed dependencies of a summary are the previous ones without the
///   new ones.
/// - Where the first summary of an asset has previous dependencies, they
///   are those of the header that the asset had before the run.
/// - The header of a saved asset names the dependencies of the asset's last
///   summary.
/// - The artifact of an asset that the run did not save is as it was.
pub open spec fn kept_headers(
    before: Map<Seq<char>, Seq<u8>>,
    after: Map<Seq<char>, Seq<u8>>,
    root: Seq<char>,
    saved: Seq<SavedSummary>,
) -> bool {
    &&& removals_fit(saved)
    &&& firsts_read(before, root, saved)
    &&& lasts_written(after, root, saved)
    &&& others_kept(before, after, root, saved)
}

/// What a batch leaves of the files below `root`, given the files before it,
/// the summaries of the saved sources and the ids whose file of dependents
/// the store refused to change: the headers are kept as a run keeps them,
/// and the recorded dependents of an asset whose file was not refused are
/// those before and the noted ones, without the dropped ones.
#[verifier::opaque]
pub open spec fn batch_outcome(
    before: Map<Seq<char>, Seq<u8>>,
    after: Map<Seq<char>, Seq<u8>>,
    root: Seq<char>,
    saved: Seq<SavedSummary>,
    unrecorded: Seq<AssetId>,
) -> bool {
    &&& forall|dep: AssetId, id: AssetId|
        !unrecorded.contains(dep) ==> (#[trigger] recorded_dependents(after, root, dep).contains(
            id,
        ) <==> (recorded_dependents(before, root, dep).contains(id) || noted(
            saved,
            saved.len() as int,
            dep,
            id,
        )) && !dropped(saved, saved.len() as int, dep, id))
    &&& kept_headers(before, after, root, saved)
}

/// Whether a summary or a record tells of the source at `path`.
pub open spec fn told(saved: Seq<SavedSummary>, errors: Seq<ImportError>, path: Seq<char>) -> bool {
    (exists|k: int| 0 <= k < saved.len() && (#[trigger] saved[k]).path@ == path) || (exists|k: int|
        0 <= k < errors.len() && (#[trigger] errors[k]).path@ == path)
}

/// Whether `path` is one of `paths`.
pub open spec fn among(paths: Seq<String>, path: Seq<char>) -> bool {
    exists|i: int| 0 <= i < paths.len() && (#[trigger] paths[i])@ == path
}

/// Whether the report tells of every one of `paths`: each path has a summary
/// or a record; a summary is of a source that has an importer; the cause of
/// a record fits its path.
#[verifier::opaque]
pub open spec fn reported<F: FileSystem>(
    importers: AssetImporters<F>,
    paths: Seq<String>,
    saved: Seq<SavedSummary>,
    errors: Seq<ImportError>,
) -> bool {
    &&& forall|k: int|
        0 <= k < saved.len() ==> has_importer(importers, (#[trigger] saved[k]).path@)
    &&& forall|k: int| 0 <= k < errors.len() ==> cause_fits(importers, #[trigger] errors[k])
    &&& forall|i: int| 0 <= i < paths.len() ==> told(saved, errors, (#[trigger] paths[i])@)
}

/// Whether the report tells of no other source than those at `paths`.
#[verifier::opaque]
pub open spec fn from_paths(
    paths: Seq<String>,
    saved: Seq<SavedSummary>,
    errors: Seq<ImportError>,
) -> bool {
    &&& forall|k: int| 0 <= k < saved.len() ==> among(paths, (#[trigger] saved[k]).path@)
    &&& forall|k: int| 0 <= k < errors.len() ==> among(paths, (#[trigger] errors[k]).path@)
}

/// Whether a summary has or has lost the dependency `dep`.
pub open spec fn mentioned(saved: Seq<SavedSummary>, dep: AssetId) -> bool {
    exists|i: int|
        0 <= i < saved.len() && ((#[trigger] saved[i]).dependencies@.contains(dep)
            || saved[i].removed@.contains(dep))
}

/// Whether a run may have changed the file at `path`: it is the sidecar or
/// the artifact of a saved source, the sidecar of a source that failed
/// after its importer was found, or the file of the dependents of an asset
/// that a summary mentions.
pub open spec fn touched(
    root: Seq<char>,
    saved: Seq<SavedSummary>,
    errors: Seq<ImportError>,
    path: Seq<char>,
) -> bool {
    ||| exists|k: int|
        0 <= k < saved.len() && (path == metadata_path((#[trigger] saved[k]).path@) || path
            == artifact_path(root, saved[k].id))
    ||| exists|k: int|
        0 <= k < errors.len() && path == metadata_path((#[trigger] errors[k]).path@) && !(
        errors[k].error is NoExtension || errors[k].error is NoImporter)
    ||| exists|dep: AssetId| mentioned(saved, dep) && path == #[trigger] dependents_path(root, dep)
}

/// Whether the artifact of `id` stands in the files: its file is there and
/// holds an artifact whose header has that id.
pub open spec fn stands(files: Map<Seq<char>, Seq<u8>>, root: Seq<char>, id: AssetId) -> bool {
    let place = artifact_path(root, id);
    &&& files.contains_key(place)
    &&& decode_artifact(files[place]) matches Some(artifact) && artifact.meta.id == id
}

/// Whether the file of the dependents of `dep` is as an update leaves it: it
/// holds exactly the encoding of the recorded dependents, and is not there
/// where they are none.
pub open spec fn canonical_at(files: Map<Seq<char>, Seq<u8>>, root: Seq<char>, dep: AssetId) -> bool {
    let place = dependents_path(root, dep);
    let now = recorded_dependents(files, root, dep);
    &&& files.contains_key(place) <==> now.len() > 0
    &&& files.contains_key(place) ==> files[place] == crate::asset::bytes::encode_ids(now)
}

/// Whether a run has left alone what it has not touched: a file that the
/// run has not touched is as it was, and no file is gone but files of
/// dependents of assets that a summary mentions.
pub open spec fn left_alone(
    before: Map<Seq<char>, Seq<u8>>,
    after: Map<Seq<char>, Seq<u8>>,
    root: Seq<char>,
    saved: Seq<SavedSummary>,
    errors: Seq<ImportError>,
) -> bool {
    &&& forall|path: Seq<char>|
        !touched(root, saved, errors, path) ==> #[trigger] same_at(after, before, path)
    &&& forall|path: Seq<char>|
        before.contains_key(path) && !(#[trigger] after.contains_key(path)) ==> exists|
            dep: AssetId,
        | mentioned(saved, dep) && path == #[trigger] dependents_path(root, dep)
}

/// Whether the sidecar of every saved source is there and its artifact stands.
pub open spec fn all_stand(
    after: Map<Seq<char>, Seq<u8>>,
    root: Seq<char>,
    saved: Seq<SavedSummary>,
) -> bool {
    forall|k: int|
        0 <= k < saved.len() ==> after.contains_key(metadata_path((#[trigger] saved[k]).path@))
            && stands(after, root, saved[k].id)
}

/// Whether the file of the dependents of every mentioned asset, unless the
/// store refused it, is as an update leaves it.
pub open spec fn all_canonical(
    after: Map<Seq<char>, Seq<u8>>,
    root: Seq<char>,
    saved: Seq<SavedSummary>,
    unrecorded: Seq<AssetId>,
) -> bool {
    forall|dep: AssetId|
        mentioned(saved, dep) && !unrecorded.contains(dep) ==> #[trigger] canonical_at(
            after,
            root,
            dep,
        )
}

/// Whether the recorded dependents follow the summaries: a recorded
/// dependent was recorded before or noted by a summary; one that is no
/// longer recorded was dropped by a summary.
pub open spec fn index_follows(
    before: Map<Seq<char>, Seq<u8>>,
    after: Map<Seq<char>, Seq<u8>>,
    root: Seq<char>,
    saved: Seq<SavedSummary>,
) -> bool {
    &&& forall|dep: AssetId, id: AssetId| #[trigger]
        recorded_dependents(after, root, dep).contains(id) ==> recorded_dependents(
            before,
            root,
            dep,
        ).contains(id) || noted(saved, saved.len() as int, dep, id)
    &&& forall|dep: AssetId, id: AssetId|
        recorded_dependents(before, root, dep).contains(id) && !(#[trigger] recorded_dependents(
            after,
            root,
            dep,
        ).contains(id)) ==> dropped(saved, saved.len() as int, dep, id)
}

/// Whether the recorded dependents are settled as the summaries say, for
/// each asset whose file the store did not refuse: a dependent that a
/// summary noted and none dropped is recorded, and one that a summary
/// dropped and none noted is not.
pub open spec fn index_settled(
    after: Map<Seq<char>, Seq<u8>>,
    root: Seq<char>,
    saved: Seq<SavedSummary>,
    unrecorded: Seq<AssetId>,
) -> bool {
    forall|dep: AssetId, id: AssetId|
        !unrecorded.contains(dep) ==> {
            let now = #[trigger] recorded_dependents(after, root, dep).contains(id);
            let came = noted(saved, saved.len() as int, dep, id);
            let left = dropped(saved, saved.len() as int, dep, id);
            &&& came && !left ==> now
            &&& left && !came ==> !now
        }
}

/// What a run of imports leaves of the files below `root`, given the files
/// before it and its report: the run has left alone what it has not
/// touched, the artifacts of the saved sources stand, the headers are kept,
/// the files of the dependents are as an update leaves them, the recorded
/// dependents follow the summaries and are settled as they say, and the
/// sidecars are written for the ids of the summaries.
#[verifier::opaque]
pub open spec fn run_outcome(
    before: Map<Seq<char>, Seq<u8>>,
    after: Map<Seq<char>, Seq<u8>>,
    root: Seq<char>,
    saved: Seq<SavedSummary>,
    errors: Seq<ImportError>,
    unrecorded: Seq<AssetId>,
) -> bool {
    &&& left_alone(before, after, root, saved, errors)
    &&& all_stand(after, root, saved)
    &&& kept_headers(before, after, root, saved)
    &&& all_canonical(after, root, saved, unrecorded)
    &&& index_follows(before, after, root, saved)
    &&& index_settled(after, root, saved, unrecorded)
    &&& sidecars_written(after, saved, errors)
}

/// Whether the summary at `i` is the first that the report tells of its
/// source: no summary before it and no record has the path.
pub open spec fn first_told(saved: Seq<SavedSummary>, errors: Seq<ImportError>, i: int) -> bool {
    &&& forall|j: int| 0 <= j < i ==> (#[trigger] saved[j]).path@ != saved[i].path@
    &&& forall|j: int| 0 <= j < errors.len() ==> (#[trigger] errors[j]).path@ != saved[i].path@
}

/// Whether the summary at `i` is the last that the report tells of its
/// source: no summary after it and no record has the path.
pub open spec fn last_told(saved: Seq<SavedSummary>, errors: Seq<ImportError>, i: int) -> bool {
    &&& forall|j: int| i < j < saved.len() ==> (#[trigger] saved[j]).path@ != saved[i].path@
    &&& forall|j: int| 0 <= j < errors.len() ==> (#[trigger] errors[j]).path@ != saved[i].path@
}

/// Whether the sidecars are written for the ids of the summaries: the
/// sidecar of a source holds the text that was written for the id of the
/// last summary that the report tells of the source.
pub open spec fn sidecars_written(
    after: Map<Seq<char>, Seq<u8>>,
    saved: Seq<SavedSummary>,
    errors: Seq<ImportError>,
) -> bool {
    forall|i: int|
        0 <= i < saved.len() && last_told(saved, errors, i) ==> written_for(
            after[metadata_path((#[trigger] saved[i]).path@)],
            saved[i].id,
        )
}

/// Whether a run has kept the ids of the sources: where the sidecar of a
/// source held an id for its importer before the run, the first that the
/// report tells of the source is saved under that id.
#[verifier::opaque]
pub open spec fn ids_kept<F: FileSystem>(
    importers: AssetImporters<F>,
    before: Map<Seq<char>, Seq<u8>>,
    saved: Seq<SavedSummary>,
    errors: Seq<ImportError>,
) -> bool {
    forall|i: int|
        0 <= i < saved.len() && first_told(saved, errors, i) ==> (sidecar_id(
            importers,
            before,
            (#[trigger] saved[i]).path@,
        ) matches Some(id) ==> saved[i].id == id)
}

/// Whether a run may ask to import `id` again: a summary of the asset names
/// a dependency whose file did not record the asset before the run, or that
/// the asset had lost in the run before it got it back.
pub open spec fn asked_again(
    before: Map<Seq<char>, Seq<u8>>,
    root: Seq<char>,
    saved: Seq<SavedSummary>,
    id: AssetId,
) -> bool {
    exists|dep: AssetId| #[trigger]
        noted(saved, saved.len() as int, dep, id) && (!recorded_dependents(
            before,
            root,
            dep,
        ).contains(id) || dropped(saved, saved.len() as int, dep, id))
}

/// Whether the ids in `asked` are what a run asks to import again, as far
/// as its summaries say: every id that newly depends on something by the
/// summaries of the whole run is among them, and each of them is the id of
/// an asset that a summary gives a dependency which was not on record
/// before the run, or was lost in it.
#[verifier::opaque]
pub open spec fn asks_fit(
    before: Map<Seq<char>, Seq<u8>>,
    root: Seq<char>,
    saved: Seq<SavedSummary>,
    unrecorded: Seq<AssetId>,
    asked: Seq<AssetId>,
) -> bool {
    &&& forall|id: AssetId| #[trigger]
        requeued(before, root, saved, unrecorded).contains(id) ==> asked.contains(id)
    &&& forall|id: AssetId| #[trigger] asked.contains(id) ==> asked_again(before, root, saved, id)
}

/// The place of the last summary of `id` before the place `j`, or -1 where
/// there is none.
pub open spec fn last_before(saved: Seq<SavedSummary>, j: int, id: AssetId) -> int
    decreases j,
{
    if j <= 0 {
        -1
    } else if saved[j - 1].id == id {
        j - 1
    } else {
        last_before(saved, j - 1, id)
    }
}

/// Whether the previous dependencies of the summary at `j` are the
/// dependencies of the summary of the same asset before it, where there is
/// one.
pub open spec fn chained_at(saved: Seq<SavedSummary>, j: int) -> bool {
    let p = last_before(saved, j, saved[j].id);
    p >= 0 ==> previous_deps(saved[j]) == saved[p].dependencies@
}

/// Whether the batch has read every header that was there. Where the first
/// summary of an asset has no previous dependencies, the asset had no header
/// with dependencies before the batch; and the previous dependencies of a
/// further summary of an asset are the dependencies of the summary of the
/// asset before it.
#[verifier::opaque]
pub open spec fn read_what_was_there(
    before: Map<Seq<char>, Seq<u8>>,
    root: Seq<char>,
    saved: Seq<SavedSummary>,
) -> bool {
    &&& forall|i: int|
        0 <= i < saved.len() && is_first(saved, i) && (#[trigger] saved[i]).previous is None
            ==> header_deps(before, root, saved[i].id).len() == 0
    &&& forall|j: int| 0 <= j < saved.len() ==> #[trigger] chained_at(saved, j)
}

/// What `last_before` finds: a summary of the asset before the place, with
/// no summary of the asset between the two.
pub proof fn lemma_last_before(saved: Seq<SavedSummary>, j: int, id: AssetId)
    requires
        0 <= j <= saved.len(),
    ensures
        -1 <= last_before(saved, j, id),
        last_before(saved, j, id) < j || j == 0,
        last_before(saved, j, id) >= 0 ==> saved[last_before(saved, j, id)].id == id,
        forall|k: int| last_before(saved, j, id) < k < j ==> (#[trigger] saved[k]).id != id,
    decreases j,
{
    if j > 0 && saved[j - 1].id != id {
        lemma_last_before(saved, j - 1, id);
    }
}

/// One more summary at the end changes nothing before it.
pub proof fn lemma_last_before_pushed(
    saved: Seq<SavedSummary>,
    summary: SavedSummary,
    j: int,
    id: AssetId,
)
    requires
        0 <= j <= saved.len(),
    ensures
        last_before(saved.push(summary), j, id) == last_before(saved, j, id),
    decreases j,
{
    if j > 0 {
        assert(saved.push(summary)[j - 1] == saved[j - 1]);
        if saved[j - 1].id != id {
            lemma_last_before_pushed(saved, summary, j - 1, id);
        }
    }
}

/// The index of the sources after the saved ones were entered, each under
/// its id, in the order of their import.
pub open spec fn library_after(
    entries: Seq<(AssetId, Seq<char>)>,
    saved: Seq<SavedSummary>,
) -> Seq<(AssetId, Seq<char>)>
    decreases saved.len(),
{
    if saved.len() == 0 {
        entries
    } else {
        without(
            library_after(entries, saved.drop_last()),
            saved.last().id,
            saved.last().path@,
        ).push((saved.last().id, saved.last().path@))
    }
}

/// Entering the saved sources of two runs is entering those of the first
/// and then those of the second.
pub proof fn lemma_library_after_joins(
    entries: Seq<(AssetId, Seq<char>)>,
    s1: Seq<SavedSummary>,
    s2: Seq<SavedSummary>,
)
    ensures
        library_after(entries, s1 + s2) == library_after(library_after(entries, s1), s2),
    decreases s2.len(),
{
    if s2.len() == 0 {
        assert(s1 + s2 =~= s1);
    } else {
        lemma_library_after_joins(entries, s1, s2.drop_last());
        assert((s1 + s2).drop_last() =~= s1 + s2.drop_last());
        assert((s1 + s2).last() == s2.last());
    }
}

/// Whether no edge was both noted and dropped: no asset has got a
/// dependency by one summary and lost the same by another.
#[verifier::opaque]
pub open spec fn unmixed(saved: Seq<SavedSummary>) -> bool {
    forall|dep: AssetId, id: AssetId|
        !(#[trigger] noted(saved, saved.len() as int, dep, id) && dropped(
            saved,
            saved.len() as int,
            dep,
            id,
        ))
}

/// Whether the summary at `j` is of an asset that loses what it had and
/// has no more: its removed dependencies are the previous ones without the
/// new ones, and the previous ones are those of the summary of the asset
/// before it, or, for the first summary of the asset, those of the header
/// before the batch.
pub open spec fn linked_at(
    before: Map<Seq<char>, Seq<u8>>,
    root: Seq<char>,
    saved: Seq<SavedSummary>,
    j: int,
) -> bool {
    let p = last_before(saved, j, saved[j].id);
    &&& saved[j].removed@ == seq_difference(previous_deps(saved[j]), saved[j].dependencies@)
    &&& previous_deps(saved[j]) == if p >= 0 {
        saved[p].dependencies@
    } else {
        header_deps(before, root, saved[j].id)
    }
}

/// An edge that an asset had, by its header before the batch or by one of
/// its summaries, and that a later summary of the asset lacks, was
/// dropped.
pub proof fn lemma_lost_edge(
    before: Map<Seq<char>, Seq<u8>>,
    root: Seq<char>,
    saved: Seq<SavedSummary>,
    j: int,
    a: AssetId,
    b: AssetId,
)
    requires
        0 <= j < saved.len(),
        saved[j].id == a,
        !saved[j].dependencies@.contains(b),
        forall|k: int| 0 <= k < saved.len() ==> #[trigger] linked_at(before, root, saved, k),
        header_deps(before, root, a).contains(b) || exists|i: int|
            0 <= i < j && (#[trigger] saved[i]).id == a && saved[i].dependencies@.contains(b),
    ensures
        dropped(saved, saved.len() as int, b, a),
    decreases j,
{
    let p = last_before(saved, j, a);
    lemma_last_before(saved, j, a);
    lemma_difference_contains(previous_deps(saved[j]), saved[j].dependencies@, b);
    assert(linked_at(before, root, saved, j));
    if p >= 0 {
        if saved[p].dependencies@.contains(b) {
            assert(saved[j].removed@.contains(b));
        } else {
            if !header_deps(before, root, a).contains(b) {
                let i = choose|i: int|
                    0 <= i < j && (#[trigger] saved[i]).id == a && saved[i].dependencies@.contains(
                        b,
                    );
                assert(i < p);
            }
            lemma_lost_edge(before, root, saved, p, a, b);
        }
    } else {
        assert(header_deps(before, root, a).contains(b)) by {
            assert(forall|i: int| 0 <= i < j ==> (#[trigger] saved[i]).id != a);
        }
        assert(saved[j].removed@.contains(b));
    }
}

/// Each summary of a batch that has read every header that was there is
/// linked to what the asset had.
pub proof fn lemma_linked(
    before: Map<Seq<char>, Seq<u8>>,
    after: Map<Seq<char>, Seq<u8>>,
    root: Seq<char>,
    saved: Seq<SavedSummary>,
    j: int,
)
    requires
        0 <= j < saved.len(),
        kept_headers(before, after, root, saved),
        read_what_was_there(before, root, saved),
    ensures
        linked_at(before, root, saved, j),
{
    reveal(read_what_was_there);
    let p = last_before(saved, j, saved[j].id);
    lemma_last_before(saved, j, saved[j].id);
    assert(chained_at(saved, j));
    if p < 0 {
        assert(is_first(saved, j));
        if saved[j].previous is None {
            assert(header_deps(before, root, saved[j].id).len() == 0);
            assert(header_deps(before, root, saved[j].id) =~= Seq::<AssetId>::empty());
        }
    }
}

/// The reverse index stays the transpose of the dependencies over a batch.
/// Let the files have been in step before the batch: an asset was among the
/// recorded dependents of another exactly when its header named the other.
/// Let no edge have been both noted and dropped in the batch, let the store
/// have refused no file of dependents, and let the batch have read every
/// header that was there; a batch on a reliable store meets the last two.
/// Then the files are in step after the batch.
pub proof fn lemma_batch_transposes(
    before: Map<Seq<char>, Seq<u8>>,
    after: Map<Seq<char>, Seq<u8>>,
    root: Seq<char>,
    saved: Seq<SavedSummary>,
    unrecorded: Seq<AssetId>,
)
    requires
        batch_outcome(before, after, root, saved, unrecorded),
        transposed(before, root),
        unrecorded.len() == 0,
        unmixed(saved),
        read_what_was_there(before, root, saved),
    ensures
        transposed(after, root),
{
    reveal(batch_outcome);
    reveal(unmixed);
    reveal(transposed);
    let n = saved.len() as int;
    assert forall|k: int| 0 <= k < saved.len() implies #[trigger] linked_at(
        before,
        root,
        saved,
        k,
    ) by {
        lemma_linked(before, after, root, saved, k);
    }
    assert forall|a: AssetId, b: AssetId| #[trigger]
        header_deps(after, root, a).contains(b) <==> recorded_dependents(after, root, b).contains(
            a,
        ) by {
        assert(!unrecorded.contains(b));
        assert(header_deps(before, root, a).contains(b) <==> recorded_dependents(
            before,
            root,
            b,
        ).contains(a));
        let m = last_before(saved, n, a);
        lemma_last_before(saved, n, a);
        if m >= 0 {
            assert(is_last(saved, m));
            assert(header_deps(after, root, a) == saved[m].dependencies@);
            if saved[m].dependencies@.contains(b) {
                assert(noted(saved, n, b, a));
            } else {
                if noted(saved, n, b, a) {
                    let i = choose|i: int|
                        0 <= i < n && (#[trigger] saved[i]).id == a
                            && saved[i].dependencies@.contains(b);
                    assert(i < m);
                    lemma_lost_edge(before, root, saved, m, a, b);
                } else if header_deps(before, root, a).contains(b) {
                    lemma_lost_edge(before, root, saved, m, a, b);
                }
            }
        } else {
            assert(same_at(after, before, artifact_path(root, a)));
            if noted(saved, n, b, a) {
                let i = choose|i: int|
                    0 <= i < n && (#[trigger] saved[i]).id == a && saved[i].dependencies@.contains(
                        b,
                    );
            }
            if dropped(saved, n, b, a) {
                let i = choose|i: int|
                    0 <= i < n && (#[trigger] saved[i]).id == a && saved[i].removed@.contains(b);
            }
        }
    }
}

/// Imports the sources at `paths`, one after the other. A source that fails
/// is put on record and passed over. Each saved source is entered in the
/// library. After the last source the files of the dependents are brought
/// up to date; failures there are passed over. The ids to import again are
/// those of the saved assets that newly depend on something.
#[verifier::rlimit(40)]
pub fn import_assets<F: FileSystem>(
    paths: &[String],
    fs: &mut AssetFileSystem<F>,
    db: &mut AssetDatabase<F>,
) -> (report: ImportReport)
    requires
        old(db).wf(),
    ensures
        final(db).wf(),
        final(db).importers == old(db).importers,
        final(db).library@ == library_after(old(db).library@, report.saved@),
        final(fs).root() == old(fs).root(),
        final(fs).reliable() == old(fs).reliable(),
        report.saved@.len() + report.errors@.len() == paths@.len(),
        old(fs).reliable() ==> report.unrecorded@.len() == 0,
        report.chunks == 1,
        report.dependents.wf(),
        report.dependents.as_set() == requeued(
            old(fs).files(),
            old(fs).root(),
            report.saved@,
            report.unrecorded@,
        ),
        batch_outcome(
            old(fs).files(),
            final(fs).files(),
            old(fs).root(),
            report.saved@,
            report.unrecorded@,
        ),
        old(fs).reliable() ==> read_what_was_there(old(fs).files(), old(fs).root(), report.saved@),
        run_outcome(
            old(fs).files(),
            final(fs).files(),
            old(fs).root(),
            report.saved@,
            report.errors@,
            report.unrecorded@,
        ),
        reported(old(db).importers, paths@, report.saved@, report.errors@),
        from_paths(paths@, report.saved@, report.errors@),
        (forall|i: int|
            0 <= i < paths@.len() ==> !has_importer(old(db).importers, (#[trigger] paths@[i])@))
            ==> final(fs).files() == old(fs).files(),
        old(fs).reliable() ==> ids_kept(
            old(db).importers,
            old(fs).files(),
            report.saved@,
            report.errors@,
        ),
        old(fs).reliable() && transposed(old(fs).files(), old(fs).root()) && unmixed(
            report.saved@,
        ) ==> transposed(final(fs).files(), old(fs).root()),
        old(fs).reliable() ==> first_outcome(
            old(db).importers,
            old(fs).files(),
            paths@,
            report.saved@,
            report.errors@,
        ),
{
    let mut assets = AssetStore::new();
    let mut table: DenseMap<u64, DependentUpdates> = DenseMap::new();
    let mut saved: Vec<SavedSummary> = Vec::new();
    let mut errors: Vec<ImportError> = Vec::new();
    let mut i: usize = 0;
    proof {
        lemma_no_report(db.importers, paths@);
        lemma_nothing_kept(db.importers, fs.files(), errors@);
        lemma_nothing_imported(fs.files(), fs.root(), fs.reliable());
        assert(paths@.take(0) =~= Seq::<String>::empty());
        assert(table@ =~= Map::<u64, DependentUpdates>::empty());
    }
    while i < paths.len()
        invariant
            i <= paths@.len(),
            db.wf(),
            db.importers == old(db).importers,
            fs.root() == old(fs).root(),
            fs.reliable() == old(fs).reliable(),
            assets.wf(),
            table.wf(),
            table_wf(table@),
            saved@.len() + errors@.len() == i,
            db.library@ == library_after(old(db).library@, saved@),
            table_follows(table@, saved@),
            imported_so_far(old(fs).files(), fs.files(), old(fs).root(), saved@, errors@),
            headers_so_far(
                old(fs).files(),
                fs.files(),
                old(fs).root(),
                saved@,
                old(fs).reliable(),
            ),
            old(fs).reliable() ==> ids_kept(db.importers, old(fs).files(), saved@, errors@),
            reported(db.importers, paths@.take(i as int), saved@, errors@),
            from_paths(paths@, saved@, errors@),
            i == 0 ==> fs.files() == old(fs).files(),
            old(fs).reliable() && i > 0 ==> first_outcome(
                db.importers,
                old(fs).files(),
                paths@,
                saved@,
                errors@,
            ),
        decreases paths@.len() - i,
    {
        let path = paths[i].as_str();
        i += 1;
        let ghost files_before = fs.files();
        let outcome = import_asset(path, fs, &*db, &mut assets);
        match outcome {
            Ok(asset) => {
                let id = asset.header().id();
                let summary = SavedSummary {
                    path: String::from_str(path),
                    id,
                    dependencies: asset.header().dependencies().clone(),
                    previous: match asset.previous() {
                        Some(meta) => Some(meta.dependencies().clone()),
                        None => None,
                    },
                    removed: asset.gone().clone(),
                };
                db.library.insert(id, String::from_str(path));
                let ghost before = table@;
                let ghost earlier = saved@;
                record(&mut table, &summary);
                saved.push(summary);
                proof {
                    let root = old(fs).root();
                    if previous_deps(summary).len() == 0 {
                        assert(seq_difference(previous_deps(summary), summary.dependencies@).len()
                            == 0);
                    }
                    lemma_headers_saved(
                        old(fs).files(),
                        files_before,
                        fs.files(),
                        root,
                        earlier,
                        summary,
                        old(fs).reliable(),
                    );
                    if old(fs).reliable() {
                        lemma_id_kept(
                            db.importers,
                            old(fs).files(),
                            files_before,
                            root,
                            earlier,
                            errors@,
                            summary,
                        );
                    }
                    lemma_import_saved(
                        old(fs).files(),
                        files_before,
                        fs.files(),
                        root,
                        earlier,
                        errors@,
                        summary,
                    );
                    lemma_report_saved(db.importers, paths@, i - 1, earlier, errors@, summary);
                    lemma_table_recorded(before, table@, earlier, summary);
                    assert(saved@.drop_last() =~= earlier);
                    if old(fs).reliable() {
                        lemma_first_saved(
                            db.importers,
                            old(fs).files(),
                            paths@,
                            earlier,
                            errors@,
                            summary,
                        );
                    }
                }
            },
            Err(record) => {
                proof {
                    let root = old(fs).root();
                    lemma_headers_failed(
                        old(fs).files(),
                        files_before,
                        fs.files(),
                        root,
                        saved@,
                        path@,
                        old(fs).reliable(),
                    );
                    if old(fs).reliable() {
                        lemma_id_kept_failed(
                            db.importers,
                            old(fs).files(),
                            saved@,
                            errors@,
                            record,
                        );
                    }
                    lemma_import_failed(
                        db.importers,
                        old(fs).files(),
                        files_before,
                        fs.files(),
                        root,
                        saved@,
                        errors@,
                        record,
                    );
                    lemma_report_failed(db.importers, paths@, i - 1, saved@, errors@, record);
                    if old(fs).reliable() {
                        lemma_first_failed(
                            db.importers,
                            old(fs).files(),
                            paths@,
                            saved@,
                            errors@,
                            record,
                        );
                    }
                }
                errors.push(record);
            },
        }
    }
    let ghost middle = fs.files();
    let (unrecorded, returned) = apply_table(&table, fs);
    proof {
        let root = old(fs).root();
        lemma_batch_law(
            old(fs).files(),
            middle,
            fs.files(),
            root,
            saved@,
            table@,
            unrecorded@,
            old(fs).reliable(),
        );
        lemma_batch_run(
            old(fs).files(),
            middle,
            fs.files(),
            root,
            saved@,
            errors@,
            table@,
            unrecorded@,
            old(fs).reliable(),
        );
        lemma_batch_asks(
            old(fs).files(),
            middle,
            root,
            saved@,
            table@,
            unrecorded@,
            returned@,
            old(fs).reliable(),
        );
        assert(paths@.take(paths@.len() as int) =~= paths@);
        if forall|i: int|
            0 <= i < paths@.len() ==> !has_importer(db.importers, (#[trigger] paths@[i])@) {
            lemma_nothing_to_import(
                db.importers,
                paths@,
                old(fs).files(),
                fs.files(),
                root,
                saved@,
                errors@,
                unrecorded@,
            );
        }
        if old(fs).reliable() && transposed(old(fs).files(), root) && unmixed(saved@) {
            lemma_batch_transposes(old(fs).files(), fs.files(), root, saved@, unrecorded@);
        }
        if paths@.len() == 0 {
            lemma_first_none(db.importers, old(fs).files(), paths@, saved@, errors@);
        }
    }
    ImportReport { saved, errors, dependents: returned, unrecorded, chunks: 1 }
}

/// Imports the sources at `paths` in chunks of `CHUNK_SIZE`, each chunk as
/// a batch of its own. The reports of the chunks are put together: the
/// summaries and the records in the order of the chunks, and the ids to
/// import again without repeats. A single chunk is one batch.
#[verifier::rlimit(40)]
pub fn chunked_import<F: FileSystem>(
    paths: &[String],
    fs: &mut AssetFileSystem<F>,
    db: &mut AssetDatabase<F>,
) -> (report: ImportReport)
    requires
        old(db).wf(),
    ensures
        final(db).wf(),
        final(db).importers == old(db).importers,
        final(db).library@ == library_after(old(db).library@, report.saved@),
        final(fs).root() == old(fs).root(),
        final(fs).reliable() == old(fs).reliable(),
        report.saved@.len() + report.errors@.len() == paths@.len(),
        old(fs).reliable() ==> report.unrecorded@.len() == 0,
        report.chunks == (paths@.len() + CHUNK_SIZE - 1) / (CHUNK_SIZE as int),
        report.dependents.wf(),
        run_outcome(
            old(fs).files(),
            final(fs).files(),
            old(fs).root(),
            report.saved@,
            report.errors@,
            report.unrecorded@,
        ),
        reported(old(db).importers, paths@, report.saved@, report.errors@),
        from_paths(paths@, report.saved@, report.errors@),
        (forall|i: int|
            0 <= i < paths@.len() ==> !has_importer(old(db).importers, (#[trigger] paths@[i])@))
            ==> final(fs).files() == old(fs).files(),
        asks_fit(
            old(fs).files(),
            old(fs).root(),
            report.saved@,
            report.unrecorded@,
            report.dependents@,
        ),
        paths@.len() <= CHUNK_SIZE ==> report.dependents.as_set() == requeued(
            old(fs).files(),
            old(fs).root(),
            report.saved@,
            report.unrecorded@,
        ),
        old(fs).reliable() ==> ids_kept(
            old(db).importers,
            old(fs).files(),
            report.saved@,
            report.errors@,
        ),
        old(fs).reliable() && transposed(old(fs).files(), old(fs).root()) && unmixed(
            report.saved@,
        ) ==> transposed(final(fs).files(), old(fs).root()),
        old(fs).reliable() ==> first_outcome(
            old(db).importers,
            old(fs).files(),
            paths@,
            report.saved@,
            report.errors@,
        ),
{
    let mut saved: Vec<SavedSummary> = Vec::new();
    let mut errors: Vec<ImportError> = Vec::new();
    let mut dependents = IdSet::new();
    let mut unrecorded: Vec<AssetId> = Vec::new();
    let mut chunks: usize = 0;
    let mut start: usize = 0;
    proof {
        lemma_no_run(fs.files(), fs.root());
        lemma_no_report(db.importers, paths@.take(0));
        lemma_nothing_kept(db.importers, fs.files(), errors@);
        lemma_nothing_asked(fs.files(), fs.root());
        lemma_first_none(db.importers, fs.files(), paths@.take(0), saved@, errors@);
        assert(paths@.take(0) =~= Seq::<String>::empty());
        assert(dependents.as_set() =~= requeued(fs.files(), fs.root(), saved@, unrecorded@));
    }
    while start < paths.len()
        invariant
            start <= paths@.len(),
            db.wf(),
            db.importers == old(db).importers,
            fs.root() == old(fs).root(),
            fs.reliable() == old(fs).reliable(),
            saved@.len() + errors@.len() == start,
            db.library@ == library_after(old(db).library@, saved@),
            old(fs).reliable() ==> unrecorded@.len() == 0,
            chunks == (start + CHUNK_SIZE - 1) / (CHUNK_SIZE as int),
            start % CHUNK_SIZE == 0 || start == paths@.len(),
            dependents.wf(),
            run_outcome(
                old(fs).files(),
                fs.files(),
                old(fs).root(),
                saved@,
                errors@,
                unrecorded@,
            ),
            reported(db.importers, paths@.take(start as int), saved@, errors@),
            from_paths(paths@.take(start as int), saved@, errors@),
            old(fs).reliable() ==> ids_kept(db.importers, old(fs).files(), saved@, errors@),
            old(fs).reliable() && transposed(old(fs).files(), old(fs).root()) && unmixed(saved@)
                ==> transposed(fs.files(), old(fs).root()),
            asks_fit(old(fs).files(), old(fs).root(), saved@, unrecorded@, dependents@),
            old(fs).reliable() ==> first_outcome(
                db.importers,
                old(fs).files(),
                paths@.take(start as int),
                saved@,
                errors@,
            ),
            start == 0 ==> errors@.len() == 0,
            start == 0 ==> fs.files() == old(fs).files() && saved@.len() == 0 && unrecorded@.len()
                == 0 && dependents@.len() == 0,
            paths@.len() <= CHUNK_SIZE ==> dependents.as_set() == requeued(
                old(fs).files(),
                old(fs).root(),
                saved@,
                unrecorded@,
            ),
        decreases paths@.len() - start,
    {
        let left: usize = paths.len() - start;
        let end: usize = if left < CHUNK_SIZE {
            paths.len()
        } else {
            start + CHUNK_SIZE
        };
        let chunk = vstd::slice::slice_subrange(paths, start, end);
        let ghost middle = fs.files();
        let ghost s1 = saved@;
        let ghost e1 = errors@;
        let ghost u1 = unrecorded@;
        let ghost d1 = dependents@;
        let mut report = import_assets(chunk, fs, db);
        let ghost s2 = report.saved@;
        let ghost e2 = report.errors@;
        let ghost u2 = report.unrecorded@;
        saved.append(&mut report.saved);
        errors.append(&mut report.errors);
        unrecorded.append(&mut report.unrecorded);
        dependents.extend(&report.dependents);
        proof {
            let root = old(fs).root();
            lemma_runs_then(old(fs).files(), middle, fs.files(), root, s1, e1, u1, s2, e2, u2);
            lemma_library_after_joins(old(db).library@, s1, s2);
            if old(fs).reliable() {
                if start == 0 {
                    assert(paths@.take(end as int) =~= chunk@);
                    assert(saved@ =~= s2);
                    assert(errors@ =~= e2);
                } else {
                    lemma_first_then(
                        db.importers,
                        old(fs).files(),
                        paths@.take(start as int),
                        s1,
                        e1,
                        chunk@,
                        s2,
                        e2,
                    );
                }
                lemma_ids_kept_then(db.importers, old(fs).files(), middle, root, s1, e1, u1, s2, e2);
                if transposed(old(fs).files(), root) && unmixed(saved@) {
                    lemma_unmixed_parts(s1, s2);
                }
            }
            lemma_reports_join(db.importers, paths@.take(start as int), s1, e1, chunk@, s2, e2);
            assert(paths@.take(end as int) =~= paths@.take(start as int) + chunk@);
            lemma_seq_union(d1, report.dependents@);
            lemma_asks_then(
                old(fs).files(),
                middle,
                root,
                s1,
                e1,
                u1,
                d1,
                s2,
                u2,
                report.dependents@,
                dependents@,
            );
            if paths@.len() <= CHUNK_SIZE {
                assert(start == 0);
                assert(saved@ =~= s2);
                assert(unrecorded@ =~= u2);
                assert(d1.to_set() =~= Set::<AssetId>::empty());
                assert(dependents.as_set() =~= report.dependents.as_set());
            }
        }
        chunks += 1;
        start = end;
    }
    proof {
        assert(paths@.take(paths@.len() as int) =~= paths@);
        if forall|i: int|
            0 <= i < paths@.len() ==> !has_importer(db.importers, (#[trigger] paths@[i])@) {
            lemma_nothing_to_import(
                db.importers,
                paths@,
                old(fs).files(),
                fs.files(),
                old(fs).root(),
                saved@,
                errors@,
                unrecorded@,
            );
        }
    }
    ImportReport { saved, errors, dependents, unrecorded, chunks }
}

/// The paths that the library has for the ids, in the order of the ids. An
/// id that the library does not hold is passed over.
pub open spec fn paths_of(library: Seq<(AssetId, Seq<char>)>, ids: Seq<AssetId>) -> Seq<Seq<char>>
    decreases ids.len(),
{
    if ids.len() == 0 {
        Seq::empty()
    } else {
        let front = paths_of(library, ids.drop_last());
        match path_of(library, ids.last()) {
            Some(path) => front.push(path),
            None => front,
        }
    }
}

/// The paths that the library has for the ids, in the order of the ids.
pub fn library_paths(library: &AssetLibrary, ids: &IdSet) -> (paths: Vec<String>)
    requires
        library.wf(),
    ensures
        texts(paths@) == paths_of(library@, ids@),
{
    let mut paths: Vec<String> = Vec::new();
    let mut i: usize = 0;
    proof {
        assert(texts(paths@) =~= Seq::<Seq<char>>::empty());
    }
    while i < ids.len()
        invariant
            i <= ids@.len(),
            library.wf(),
            texts(paths@) == paths_of(library@, ids@.take(i as int)),
        decreases ids@.len() - i,
    {
        let id = ids.get(i);
        proof {
            assert(ids@.take(i + 1).drop_last() =~= ids@.take(i as int));
            assert(ids@.take(i + 1).last() == id);
        }
        i += 1;
        match library.id_path(&id) {
            Some(path) => {
                let ghost before = paths@;
                paths.push(path.clone());
                proof {
                    assert(texts(paths@) =~= texts(before).push(path@));
                }
            },
            None => {},
        }
    }
    proof {
        assert(ids@.take(ids@.len() as int) =~= ids@);
    }
    paths
}

/// A run of rounds as far as it has come: the files, the report of the
/// rounds together, and the ids that the last round asks to import again.
pub struct RunView {
    pub files: Map<Seq<char>, Seq<u8>>,
    pub saved: Seq<SavedSummary>,
    pub errors: Seq<ImportError>,
    pub unrecorded: Seq<AssetId>,
    pub pending: Seq<AssetId>,
}

/// What one round of imports leaves, given the files before it, the paths
/// of its sources and its report: the outcome of a run whose report tells
/// of each of the paths once and of nothing else, and whose request fits
/// its summaries.
pub open spec fn round_outcome<F: FileSystem>(
    importers: AssetImporters<F>,
    before: Map<Seq<char>, Seq<u8>>,
    root: Seq<char>,
    paths: Seq<String>,
    saved: Seq<SavedSummary>,
    errors: Seq<ImportError>,
    unrecorded: Seq<AssetId>,
    after: Map<Seq<char>, Seq<u8>>,
    asked: Seq<AssetId>,
) -> bool {
    &&& run_outcome(before, after, root, saved, errors, unrecorded)
    &&& reported(importers, paths, saved, errors)
    &&& from_paths(paths, saved, errors)
    &&& saved.len() + errors.len() == paths.len()
    &&& asks_fit(before, root, saved, unrecorded, asked)
}

/// Whether the run `now` is the run `earlier` and one more round: the
/// earlier run asked for something, and the round has imported the paths
/// that the library had, after the earlier run, for the ids asked for.
pub open spec fn followed<F: FileSystem>(
    importers: AssetImporters<F>,
    root: Seq<char>,
    library: Seq<(AssetId, Seq<char>)>,
    earlier: RunView,
    now: RunView,
) -> bool {
    let s = earlier.saved.len() as int;
    let e = earlier.errors.len() as int;
    let u = earlier.unrecorded.len() as int;
    &&& earlier.pending.len() > 0
    &&& s <= now.saved.len() && now.saved.take(s) == earlier.saved
    &&& e <= now.errors.len() && now.errors.take(e) == earlier.errors
    &&& u <= now.unrecorded.len() && now.unrecorded.take(u) == earlier.unrecorded
    &&& exists|next: Seq<String>|
        texts(next) == paths_of(library_after(library, earlier.saved), earlier.pending)
            && #[trigger] round_outcome(
            importers,
            earlier.files,
            root,
            next,
            now.saved.skip(s),
            now.errors.skip(e),
            now.unrecorded.skip(u),
            now.files,
            now.pending,
        )
}

/// Whether the run `now` is what `rounds` rounds leave of the files
/// `before` and the library `library`: the first round has imported
/// `paths`, and each further round the paths that the library had for the
/// ids that the round before it asked to import again.
pub open spec fn rounds_ran<F: FileSystem>(
    importers: AssetImporters<F>,
    before: Map<Seq<char>, Seq<u8>>,
    root: Seq<char>,
    library: Seq<(AssetId, Seq<char>)>,
    paths: Seq<String>,
    now: RunView,
    rounds: nat,
) -> bool
    decreases rounds,
{
    if rounds == 0 {
        false
    } else if rounds == 1 {
        round_outcome(
            importers,
            before,
            root,
            paths,
            now.saved,
            now.errors,
            now.unrecorded,
            now.files,
            now.pending,
        )
    } else {
        exists|earlier: RunView| #[trigger]
            followed(importers, root, library, earlier, now) && rounds_ran(
                importers,
                before,
                root,
                library,
                paths,
                earlier,
                (rounds - 1) as nat,
            )
    }
}

/// Imports the sources at `paths`, and then, round after round, the sources
/// of the assets that the last round asks to import again, until a round
/// asks for none. The sources of a round are the paths that the library has
/// for the ids asked for. The rounds are counted in a machine word: a run
/// that would take more rounds than that ends with the last request pending.
/// The report puts the reports of the rounds together, in their order.
#[verifier::rlimit(40)]
pub fn full_import<F: FileSystem>(
    paths: &[String],
    fs: &mut AssetFileSystem<F>,
    db: &mut AssetDatabase<F>,
) -> (report: FullImportReport)
    requires
        old(db).wf(),
    ensures
        final(db).wf(),
        final(db).importers == old(db).importers,
        final(db).library@ == library_after(old(db).library@, report.saved@),
        final(fs).root() == old(fs).root(),
        final(fs).reliable() == old(fs).reliable(),
        report.rounds >= 1,
        report.rounds < usize::MAX ==> report.pending@.len() == 0,
        old(fs).reliable() ==> report.unrecorded@.len() == 0,
        report.saved@.len() + report.errors@.len() >= paths@.len(),
        run_outcome(
            old(fs).files(),
            final(fs).files(),
            old(fs).root(),
            report.saved@,
            report.errors@,
            report.unrecorded@,
        ),
        reported(old(db).importers, paths@, report.saved@, report.errors@),
        (forall|i: int|
            0 <= i < paths@.len() ==> !has_importer(old(db).importers, (#[trigger] paths@[i])@))
            ==> final(fs).files() == old(fs).files() && report.rounds == 1
            && report.saved@.len() == 0 && report.errors@.len() == paths@.len(),
        report.rounds == 1 ==> from_paths(paths@, report.saved@, report.errors@)
            && report.saved@.len() + report.errors@.len() == paths@.len(),
        report.rounds == 1 ==> requeued(
            old(fs).files(),
            old(fs).root(),
            report.saved@,
            report.unrecorded@,
        ) == Set::<AssetId>::empty(),
        rounds_ran(
            old(db).importers,
            old(fs).files(),
            old(fs).root(),
            old(db).library@,
            paths@,
            (RunView {
                files: final(fs).files(),
                saved: report.saved@,
                errors: report.errors@,
                unrecorded: report.unrecorded@,
                pending: report.pending@,
            }),
            report.rounds as nat,
        ),
        old(fs).reliable() ==> ids_kept(
            old(db).importers,
            old(fs).files(),
            report.saved@,
            report.errors@,
        ),
        old(fs).reliable() && transposed(old(fs).files(), old(fs).root()) && unmixed(
            report.saved@,
        ) ==> transposed(final(fs).files(), old(fs).root()),
        old(fs).reliable() ==> first_outcome(
            old(db).importers,
            old(fs).files(),
            paths@,
            report.saved@,
            report.errors@,
        ),
{
    let first = chunked_import(paths, fs, db);
    let ghost nothing = forall|i: int|
        0 <= i < paths@.len() ==> !has_importer(db.importers, (#[trigger] paths@[i])@);
    proof {
        if nothing {
            lemma_nothing_to_import(
                db.importers,
                paths@,
                old(fs).files(),
                fs.files(),
                old(fs).root(),
                first.saved@,
                first.errors@,
                first.unrecorded@,
            );
            lemma_asks_none(
                old(fs).files(),
                old(fs).root(),
                first.saved@,
                first.unrecorded@,
                first.dependents@,
            );
        }
    }
    let mut saved = first.saved;
    let mut errors = first.errors;
    let mut unrecorded = first.unrecorded;
    let mut chunks = first.chunks;
    let mut pending = first.dependents;
    let mut rounds: usize = 1;
    while pending.len() > 0 && rounds < usize::MAX
        invariant
            db.wf(),
            db.importers == old(db).importers,
            fs.root() == old(fs).root(),
            fs.reliable() == old(fs).reliable(),
            pending.wf(),
            rounds >= 1,
            db.library@ == library_after(old(db).library@, saved@),
            old(fs).reliable() ==> unrecorded@.len() == 0,
            saved@.len() + errors@.len() >= paths@.len(),
            run_outcome(
                old(fs).files(),
                fs.files(),
                old(fs).root(),
                saved@,
                errors@,
                unrecorded@,
            ),
            reported(db.importers, paths@, saved@, errors@),
            old(fs).reliable() ==> ids_kept(db.importers, old(fs).files(), saved@, errors@),
            old(fs).reliable() && transposed(old(fs).files(), old(fs).root()) && unmixed(saved@)
                ==> transposed(fs.files(), old(fs).root()),
            old(fs).reliable() ==> first_outcome(
                db.importers,
                old(fs).files(),
                paths@,
                saved@,
                errors@,
            ),
            nothing ==> fs.files() == old(fs).files() && pending@.len() == 0 && rounds == 1
                && saved@.len() == 0,
            rounds == 1 ==> from_paths(paths@, saved@, errors@) && saved@.len() + errors@.len()
                == paths@.len(),
            rounds == 1 ==> asks_fit(
                old(fs).files(),
                old(fs).root(),
                saved@,
                unrecorded@,
                pending@,
            ),
            rounds_ran(
                db.importers,
                old(fs).files(),
                old(fs).root(),
                old(db).library@,
                paths@,
                (RunView {
                    files: fs.files(),
                    saved: saved@,
                    errors: errors@,
                    unrecorded: unrecorded@,
                    pending: pending@,
                }),
                rounds as nat,
            ),
        decreases usize::MAX - rounds,
    {
        let next = library_paths(&db.library, &pending);
        let ghost earlier = RunView {
            files: fs.files(),
            saved: saved@,
            errors: errors@,
            unrecorded: unrecorded@,
            pending: pending@,
        };
        let ghost middle = fs.files();
        let ghost s1 = saved@;
        let ghost e1 = errors@;
        let ghost u1 = unrecorded@;
        let mut round = chunked_import(next.as_slice(), fs, db);
        let ghost s2 = round.saved@;
        let ghost e2 = round.errors@;
        let ghost u2 = round.unrecorded@;
        saved.append(&mut round.saved);
        errors.append(&mut round.errors);
        unrecorded.append(&mut round.unrecorded);
        proof {
            lemma_runs_then(
                old(fs).files(),
                middle,
                fs.files(),
                old(fs).root(),
                s1,
                e1,
                u1,
                s2,
                e2,
                u2,
            );
            if old(fs).reliable() {
                lemma_ids_kept_then(
                    db.importers,
                    old(fs).files(),
                    middle,
                    old(fs).root(),
                    s1,
                    e1,
                    u1,
                    s2,
                    e2,
                );
                if transposed(old(fs).files(), old(fs).root()) && unmixed(saved@) {
                    lemma_unmixed_parts(s1, s2);
                }
                if paths@.len() > 0 {
                    lemma_first_then(
                        db.importers,
                        old(fs).files(),
                        paths@,
                        s1,
                        e1,
                        next@,
                        s2,
                        e2,
                    );
                } else {
                    lemma_first_none(db.importers, old(fs).files(), paths@, saved@, errors@);
                }
            }
            lemma_library_after_joins(old(db).library@, s1, s2);
            lemma_reports_join(db.importers, paths@, s1, e1, next@, s2, e2);
            lemma_reported_fewer(db.importers, paths@, next@, saved@, errors@);
        }
        chunks = chunks.saturating_add(round.chunks);
        pending = round.dependents;
        proof {
            let now = RunView {
                files: fs.files(),
                saved: saved@,
                errors: errors@,
                unrecorded: unrecorded@,
                pending: pending@,
            };
            assert(now.saved.take(s1.len() as int) =~= s1);
            assert(now.saved.skip(s1.len() as int) =~= s2);
            assert(now.errors.take(e1.len() as int) =~= e1);
            assert(now.errors.skip(e1.len() as int) =~= e2);
            assert(now.unrecorded.take(u1.len() as int) =~= u1);
            assert(now.unrecorded.skip(u1.len() as int) =~= u2);
            assert(round_outcome(
                db.importers,
                middle,
                old(fs).root(),
                next@,
                s2,
                e2,
                u2,
                fs.files(),
                pending@,
            ));
            assert(earlier.pending.len() > 0);
            assert(texts(next@) == paths_of(
                library_after(old(db).library@, earlier.saved),
                earlier.pending,
            ));
            assert(round_outcome(
                db.importers,
                earlier.files,
                old(fs).root(),
                next@,
                now.saved.skip(earlier.saved.len() as int),
                now.errors.skip(earlier.errors.len() as int),
                now.unrecorded.skip(earlier.unrecorded.len() as int),
                now.files,
                now.pending,
            ));
            assert(followed(db.importers, old(fs).root(), old(db).library@, earlier, now));
        }
        rounds = rounds + 1;
    }
    proof {
        if rounds == 1 {
            lemma_asks_none(old(fs).files(), old(fs).root(), saved@, unrecorded@, pending@);
        }
    }
    FullImportReport { rounds, chunks, saved, errors, unrecorded, pending }
}

} // verus!
