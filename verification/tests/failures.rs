use asset_pipeline::asset::artifact::ArtifactMeta;
use asset_pipeline::asset::config::AssetConfig;
use asset_pipeline::asset::database::batch::{
    chunked_import, full_import, import_asset, import_assets, library_paths,
};
use asset_pipeline::asset::database::dependents::{apply_table, note, DependentUpdates};
use asset_pipeline::asset::database::importer::{
    import_source, imported_of, save_imported, saved_of, AssetImporter, AssetSaver, AssetStore,
    CustomError, ImportCause, LoadContext,
};
use asset_pipeline::asset::database::library::AssetLibrary;
use asset_pipeline::asset::AssetType;
use asset_pipeline::asset::database::AssetDatabase;
use asset_pipeline::asset::io::{AssetFileSystem, AssetIoError, FileReader, FileSystem};
use asset_pipeline::asset::memory::{MemoryFileSystem, MemoryReader};
use asset_pipeline::asset::set::IdSet;
use asset_pipeline::asset::sidecar::{metadata_of_text, text_of_metadata};
use asset_pipeline::asset::{Asset, AssetId, AssetMetadata, Settings};
use asset_pipeline::dense::DenseMap;
use std::sync::{Arc, Mutex};

struct Note {
    body: String,
}

impl Asset for Note {}

struct Level(i64);

impl Settings for Level {
    fn default_settings() -> Self {
        Level(7)
    }

    fn to_toml(&self) -> Option<toml::Value> {
        Some(toml::Value::Integer(self.0))
    }

    fn from_toml(value: &toml::Value) -> Option<Self> {
        Some(Level(value.as_integer()?))
    }
}

struct NoteSaver;

impl AssetSaver for NoteSaver {
    type Asset = Note;
    type Settings = Level;

    fn save(asset: &Note, _metadata: &AssetMetadata<Level>) -> Vec<u8> {
        asset.body.clone().into_bytes()
    }

    fn load(bytes: &[u8]) -> Note {
        Note { body: String::from_utf8_lossy(bytes).to_string() }
    }
}

/// Takes `.note` sources. A line `dep:<n>` declares the dependency `n`.
struct NoteImporter;

impl AssetImporter for NoteImporter {
    type Asset = Note;
    type Settings = Level;
    type Saver = NoteSaver;

    fn import(ctx: &mut LoadContext<Level>) -> Result<Note, CustomError> {
        let body = String::from_utf8_lossy(ctx.bytes()).to_string();
        for line in body.lines() {
            if let Some(number) = line.strip_prefix("dep:") {
                ctx.add_dependency(AssetId(number.trim().parse().unwrap()));
            }
        }
        Ok(Note { body })
    }

    fn extensions() -> Vec<String> {
        vec!["note".to_string()]
    }
}

/// A store in memory that refuses to write or remove at the paths that
/// start with one of `refused`.
struct Stubborn {
    files: MemoryFileSystem,
    refused: Arc<Mutex<Vec<String>>>,
}

impl Stubborn {
    fn refuses(&self, path: &str) -> bool {
        self.refused.lock().unwrap().iter().any(|prefix| path.starts_with(prefix.as_str()))
    }
}

impl FileSystem for Stubborn {
    type Reader = MemoryReader;

    fn is_file(&self, path: &str) -> bool {
        self.files.is_file(path)
    }

    fn read(&self, path: &str) -> Result<Vec<u8>, AssetIoError> {
        self.files.read(path)
    }

    fn read_to_string(&self, path: &str) -> Result<String, AssetIoError> {
        self.files.read_to_string(path)
    }

    fn read_exact(&self, path: &str, buffer: &mut [u8]) -> Result<(), AssetIoError> {
        self.files.read_exact(path, buffer)
    }

    fn reader(&self, path: &str) -> Result<FileReader<MemoryReader>, AssetIoError> {
        self.files.reader(path)
    }

    fn modified(&self, path: &str) -> Result<u64, AssetIoError> {
        self.files.modified(path)
    }

    fn write(&mut self, path: &str, data: &[u8]) -> Result<(), AssetIoError> {
        if self.refuses(path) {
            return Err(AssetIoError::Io(format!("{}: read-only", path)));
        }
        self.files.write(path, data)
    }

    fn remove(&mut self, path: &str) -> Result<Vec<String>, AssetIoError> {
        if self.refuses(path) {
            return Err(AssetIoError::Io(format!("{}: read-only", path)));
        }
        self.files.remove(path)
    }

    fn rename(&mut self, from: &str, to: &str) -> Result<(), AssetIoError> {
        self.files.rename(from, to)
    }

    fn read_directory(&self, path: &str, recursive: bool) -> Result<Vec<String>, AssetIoError> {
        self.files.read_directory(path, recursive)
    }

    fn create_dir(&mut self, path: &str) -> Result<(), AssetIoError> {
        self.files.create_dir(path)
    }
}

type Fs = AssetFileSystem<Stubborn>;
type Db = AssetDatabase<Stubborn>;

fn project() -> (Fs, Db) {
    let store =
        Stubborn { files: MemoryFileSystem::new(), refused: Arc::new(Mutex::new(Vec::new())) };
    let fs = AssetFileSystem::new(AssetConfig::new(""), store);
    let mut db = AssetDatabase::new();
    db.importers.register::<NoteImporter>();
    (fs, db)
}

fn refuse(fs: Fs, prefix: &str) -> Fs {
    fs.system().refused.lock().unwrap().push(prefix.to_string());
    fs
}

fn stored_id(fs: &Fs, path: &str) -> AssetId {
    fs.load_metadata::<Level>(path).unwrap().id()
}

fn recorded(fs: &Fs, id: u64) -> Option<Vec<AssetId>> {
    let bytes = fs.read(&format!(".temp/dependents/{}", id)).ok()?;
    Some(asset_pipeline::asset::database::dependents::dependents_of_bytes(Some(bytes)).to_vec())
}

#[test]
fn a_refused_artifact_leaves_the_standing_header_on_record() {
    let (mut fs, mut db) = project();
    fs.write("Assets/a.note", b"dep:4").unwrap();
    let first = full_import(&["Assets/a.note".to_string()], &mut fs, &mut db);
    assert_eq!(first.rounds, 2);
    assert_eq!(first.saved.len(), 2);
    let id = stored_id(&fs, "Assets/a.note");
    assert_eq!(first.saved[0].id, id);
    assert_eq!(first.saved[1].id, id);
    let standing = fs.load_artifact_meta(&id).unwrap();
    let before = fs.read(&format!(".cache/artifacts/{}", id.0)).unwrap();
    let mut fs = refuse(fs, ".cache/artifacts");
    fs.write("Assets/a.note", b"changed").unwrap();
    let mut assets = AssetStore::new();
    let record = import_asset("Assets/a.note", &mut fs, &db, &mut assets).err().unwrap();
    assert_eq!(record.path, "Assets/a.note");
    assert_eq!(record.id, id);
    assert!(matches!(record.error, ImportCause::Io(AssetIoError::Io(_))));
    let carried: ArtifactMeta = record.artifact.unwrap();
    assert_eq!(carried.id(), id);
    assert_eq!(carried.checksum(), standing.checksum());
    assert_eq!(carried.dependencies().to_vec(), vec![AssetId(4)]);
    assert_eq!(fs.read(&format!(".cache/artifacts/{}", id.0)).unwrap(), before);
}

#[test]
fn a_refused_file_of_dependents_is_reported_and_asks_for_nothing() {
    let (fs, mut db) = project();
    let mut fs = refuse(fs, ".temp/dependents/5");
    fs.write("Assets/a.note", b"dep:5\ndep:6").unwrap();
    let report = import_assets(&["Assets/a.note".to_string()], &mut fs, &mut db);
    let a = stored_id(&fs, "Assets/a.note");
    assert_eq!(report.saved.len(), 1);
    assert_eq!(report.unrecorded, vec![AssetId(5)]);
    assert_eq!(report.dependents.to_vec(), vec![a]);
    assert_eq!(recorded(&fs, 5), None);
    assert_eq!(recorded(&fs, 6), Some(vec![a]));
    // The edge to 6 is on record now, the edge to 5 was refused again: the
    // batch asks for nothing.
    let again = import_assets(&["Assets/a.note".to_string()], &mut fs, &mut db);
    assert_eq!(again.unrecorded, vec![AssetId(5)]);
    assert!(again.dependents.is_empty());
}

#[test]
fn table_on_a_stubborn_store_reports_what_it_could_not_write() {
    let (fs, _) = project();
    let mut fs = refuse(fs, ".temp/dependents/2");
    let mut table: DenseMap<u64, DependentUpdates> = DenseMap::new();
    note(&mut table, AssetId(1), AssetId(50), true);
    note(&mut table, AssetId(2), AssetId(50), true);
    note(&mut table, AssetId(3), AssetId(60), true);
    let (refused, fresh) = apply_table(&table, &mut fs);
    assert_eq!(refused, vec![AssetId(2)]);
    assert_eq!(fresh.to_vec(), vec![AssetId(50), AssetId(60)]);
    assert!(fs.is_file(".temp/dependents/1"));
    assert!(!fs.is_file(".temp/dependents/2"));
    assert!(fs.is_file(".temp/dependents/3"));
}

#[test]
fn a_source_is_imported_with_the_metadata_it_is_given() {
    let (mut fs, _) = project();
    fs.write("Assets/a.note", b"dep:9\ndep:9").unwrap();
    let metadata = AssetMetadata::new(AssetId(4242), Level(3));
    let imported =
        import_source::<Stubborn, NoteImporter>(&mut fs, "Assets/a.note", metadata, AssetType(31))
            .ok()
            .unwrap();
    assert_eq!(imported.artifact().id(), AssetId(4242));
    assert_eq!(imported.artifact().ty(), AssetType(31));
    assert_eq!(imported.artifact().dependencies().to_vec(), vec![AssetId(9)]);
    assert_eq!(imported.artifact().modified(), fs.modified_secs("Assets/a.note").unwrap());
    let stored = fs.load_metadata::<Level>("Assets/a.note").unwrap();
    assert_eq!(stored.id(), AssetId(4242));
    assert_eq!(stored.settings().0, 3);
    // No artifact is written before the save.
    assert!(!fs.is_file(".cache/artifacts/4242"));
}

#[test]
fn a_source_that_is_missing_fails_with_the_given_id() {
    let (mut fs, _) = project();
    let metadata = AssetMetadata::new(AssetId(11), Level(0));
    let record =
        import_source::<Stubborn, NoteImporter>(&mut fs, "Assets/none.note", metadata, AssetType(31))
            .err()
            .unwrap();
    assert_eq!(record.id, AssetId(11));
    assert_eq!(record.path, "Assets/none.note");
    assert!(record.artifact.is_none());
    assert!(matches!(record.error, ImportCause::Io(AssetIoError::NotFound(_))));
}

#[test]
fn a_refused_sidecar_fails_the_import_and_changes_nothing() {
    let (fs, mut db) = project();
    let mut fs = refuse(fs, "Assets/a.note.meta");
    fs.write("Assets/a.note", b"plain").unwrap();
    let report = full_import(&["Assets/a.note".to_string()], &mut fs, &mut db);
    assert_eq!(report.rounds, 1);
    assert_eq!(report.saved.len(), 0);
    assert_eq!(report.errors.len(), 1);
    assert!(matches!(report.errors[0].error, ImportCause::Io(AssetIoError::Io(_))));
    assert!(!fs.is_file("Assets/a.note.meta"));
    assert_eq!(fs.read_directory(".cache", true).unwrap(), Vec::<String>::new());
}

#[test]
fn the_time_of_a_file_is_told_the_same_twice() {
    let mut store = MemoryFileSystem::new();
    store.set_time(77);
    store.write("a", b"x").unwrap();
    store.set_time(99);
    store.write("b", b"y").unwrap();
    assert_eq!(store.modified("a").unwrap(), 77);
    assert_eq!(store.modified("a").unwrap(), 77);
    assert_eq!(store.modified("b").unwrap(), 99);
    store.write("a", b"z").unwrap();
    assert_eq!(store.modified("a").unwrap(), 99);
    assert!(store.modified("c").is_err());
}

#[test]
fn the_id_of_a_sidecar_is_read_whatever_the_settings_hold() {
    let text = text_of_metadata(&AssetMetadata::new(AssetId(u64::MAX), Level(5))).unwrap();
    let back = metadata_of_text::<Level>(&text).unwrap();
    assert_eq!(back.id(), AssetId(u64::MAX));
    assert_eq!(back.settings().0, 5);
    // Settings of another form are not read, and then no metadata is.
    assert!(metadata_of_text::<Level>("id = 3\nsettings = \"high\"\n").is_err());
    assert!(metadata_of_text::<Level>("id = \"3\"\nsettings = 1\n").is_err());
    assert_eq!(metadata_of_text::<Level>("settings = 1\nid = 3\nmore = 2\n").unwrap().id(), AssetId(3));
}

#[test]
fn ids_of_a_set_are_kept_in_the_records_of_a_failed_batch() {
    let (fs, mut db) = project();
    let mut fs = refuse(fs, ".cache/artifacts");
    fs.write("Assets/a.note", b"plain").unwrap();
    fs.write("Assets/b.note", b"plain").unwrap();
    let list = vec!["Assets/a.note".to_string(), "Assets/b.note".to_string()];
    let report = import_assets(&list, &mut fs, &mut db);
    assert_eq!(report.saved.len(), 0);
    assert_eq!(report.errors.len(), 2);
    assert_eq!(report.errors[0].id, stored_id(&fs, "Assets/a.note"));
    assert_eq!(report.errors[1].id, stored_id(&fs, "Assets/b.note"));
    assert!(report.dependents.is_empty());
    assert!(report.unrecorded.is_empty());
    let mut ids = IdSet::new();
    ids.insert(report.errors[0].id);
    ids.insert(report.errors[1].id);
    assert_eq!(ids.len(), 2);
}

#[test]
fn what_the_importer_made_becomes_the_outcome_of_the_import() {
    let mut declared = IdSet::new();
    declared.insert(AssetId(3));
    declared.insert(AssetId(1));
    let made: Result<Note, CustomError> = Ok(Note { body: "x".to_string() });
    let metadata = AssetMetadata::new(AssetId(8), Level(2));
    let imported =
        imported_of::<NoteSaver>("p.note", metadata, AssetType(31), 77, 99, declared, made)
            .ok()
            .unwrap();
    assert_eq!(imported.artifact().id(), AssetId(8));
    assert_eq!(imported.artifact().ty(), AssetType(31));
    assert_eq!(imported.payload(), b"x");
    assert_eq!(imported.artifact().checksum(), 77);
    assert_eq!(imported.artifact().modified(), 99);
    assert_eq!(imported.artifact().dependencies().to_vec(), vec![AssetId(3), AssetId(1)]);
    assert_eq!(imported.asset::<Note>().unwrap().body, "x");
    assert_eq!(imported.metadata::<Level>().unwrap().settings().0, 2);
    let metadata = AssetMetadata::new(AssetId(9), Level(2));
    let refused: Result<Note, CustomError> = Err(CustomError::from("no"));
    let record =
        imported_of::<NoteSaver>("p.note", metadata, AssetType(31), 1, 2, IdSet::new(), refused)
            .err()
            .unwrap();
    assert_eq!(record.path, "p.note");
    assert_eq!(record.id, AssetId(9));
    assert!(record.artifact.is_none());
    match record.error {
        ImportCause::Importer(error) => assert_eq!(error.0, "no"),
        other => panic!("{:?}", other),
    }
}

#[test]
fn the_library_holds_the_saved_sources_after_a_batch() {
    let (mut fs, mut db) = project();
    fs.write("Assets/a.note", b"plain").unwrap();
    fs.write("Assets/b.note", b"plain").unwrap();
    fs.write("Assets/c.none", b"plain").unwrap();
    let list = vec![
        "Assets/a.note".to_string(),
        "Assets/c.none".to_string(),
        "Assets/b.note".to_string(),
    ];
    let report = import_assets(&list, &mut fs, &mut db);
    assert_eq!(report.saved.len(), 2);
    assert_eq!(report.errors.len(), 1);
    assert_eq!(db.library.len(), 2);
    let a = stored_id(&fs, "Assets/a.note");
    let b = stored_id(&fs, "Assets/b.note");
    assert_eq!(db.library.id_path(&a).map(|path| path.as_str()), Some("Assets/a.note"));
    assert_eq!(db.library.id_path(&b).map(|path| path.as_str()), Some("Assets/b.note"));
    assert_eq!(db.library.path_id("Assets/c.none"), None);
    assert_eq!(report.saved[0].path, "Assets/a.note");
    assert_eq!(report.saved[1].path, "Assets/b.note");
    assert_eq!(report.errors[0].path, "Assets/c.none");
    assert!(matches!(&report.errors[0].error, ImportCause::NoImporter(ext) if ext == "none"));
    assert!(!fs.is_file("Assets/c.none.meta"));
}

fn ids(list: &[u64]) -> IdSet {
    let mut set = IdSet::new();
    for id in list {
        set.insert(AssetId(*id));
    }
    set
}

fn imported(header: &ArtifactMeta) -> asset_pipeline::asset::database::importer::ImportedAsset {
    asset_pipeline::asset::database::importer::ImportedAsset::new::<NoteSaver>(
        Note { body: "x".to_string() },
        AssetMetadata::new(header.id(), Level(1)),
        header.clone(),
    )
}

#[test]
fn what_the_store_answered_becomes_the_outcome_of_the_save() {
    let previous = ArtifactMeta::new(AssetId(8), AssetType(5), 10, 20, ids(&[1, 2]));
    let header = ArtifactMeta::new(AssetId(8), AssetType(5), 11, 21, ids(&[2, 3]));
    let saved =
        saved_of("p.note", imported(&header), Some(previous.clone()), Ok(())).ok().unwrap();
    assert_eq!(saved.meta.checksum(), 11);
    assert_eq!(saved.meta.dependencies().to_vec(), vec![AssetId(2), AssetId(3)]);
    assert_eq!(saved.prev_meta.as_ref().unwrap().checksum(), 10);
    assert_eq!(saved.removed_dependencies.to_vec(), vec![AssetId(1)]);
    assert_eq!(saved.asset::<Note>().unwrap().body, "x");

    let first = saved_of("p.note", imported(&header), None, Ok(())).ok().unwrap();
    assert!(first.prev_meta.is_none());
    assert!(first.removed_dependencies.is_empty());

    let full = Err(AssetIoError::Io("disk full".to_string()));
    let record = saved_of("p.note", imported(&header), Some(previous), full).err().unwrap();
    assert_eq!(record.path, "p.note");
    assert_eq!(record.id, AssetId(8));
    let standing = record.artifact.unwrap();
    assert_eq!(standing.checksum(), 10);
    assert_eq!(standing.dependencies().to_vec(), vec![AssetId(1), AssetId(2)]);
    assert!(matches!(record.error, ImportCause::Io(AssetIoError::Io(text)) if text == "disk full"));

    let gone = Err(AssetIoError::NotFound("p".to_string()));
    let record = saved_of("p.note", imported(&header), None, gone).err().unwrap();
    assert!(record.artifact.is_none());
    assert!(matches!(record.error, ImportCause::Io(AssetIoError::NotFound(_))));
}

#[test]
fn the_paths_of_a_round_are_those_of_the_library_in_the_order_of_the_ids() {
    let mut library = AssetLibrary::new();
    library.insert(AssetId(1), "Assets/one.note".to_string());
    library.insert(AssetId(2), "Assets/two.note".to_string());
    library.insert(AssetId(3), "Assets/three.note".to_string());
    let paths = library_paths(&library, &ids(&[3, 9, 1]));
    assert_eq!(paths, vec!["Assets/three.note".to_string(), "Assets/one.note".to_string()]);
    assert!(library_paths(&library, &IdSet::new()).is_empty());
    assert!(library_paths(&AssetLibrary::new(), &ids(&[1])).is_empty());
}

#[test]
fn a_source_named_twice_with_the_same_edges_keeps_the_files_in_step() {
    let (mut fs, mut db) = project();
    fs.write("Assets/a.note", b"dep:5\ndep:6").unwrap();
    let twice = vec!["Assets/a.note".to_string(), "Assets/a.note".to_string()];
    let report = import_assets(&twice, &mut fs, &mut db);
    let a = stored_id(&fs, "Assets/a.note");
    assert_eq!(report.saved.len(), 2);
    assert_eq!(report.saved[0].id, a);
    assert_eq!(report.saved[1].id, a);
    assert!(report.saved[0].previous.is_none());
    assert_eq!(report.saved[1].previous.as_ref().unwrap().to_vec(), vec![AssetId(5), AssetId(6)]);
    assert!(report.saved[1].removed.is_empty());
    assert_eq!(report.dependents.to_vec(), vec![a]);
    assert_eq!(recorded(&fs, 5), Some(vec![a]));
    assert_eq!(recorded(&fs, 6), Some(vec![a]));
    assert_eq!(
        fs.load_artifact_meta(&a).unwrap().dependencies().to_vec(),
        vec![AssetId(5), AssetId(6)]
    );
    // Once more, with the edges on record: still in step, and nothing asked.
    let again = import_assets(&twice, &mut fs, &mut db);
    assert!(again.dependents.is_empty());
    assert_eq!(recorded(&fs, 5), Some(vec![a]));
    assert_eq!(recorded(&fs, 6), Some(vec![a]));
}

#[test]
fn chunks_ask_together_for_what_each_of_them_asks() {
    let (mut fs, mut db) = project();
    let mut list = Vec::new();
    for i in 0..251 {
        let path = format!("Assets/{}.note", i);
        let body = if i == 0 || i == 250 { "dep:7" } else { "plain" };
        fs.write(&path, body.as_bytes()).unwrap();
        list.push(path);
    }
    let report = chunked_import(&list, &mut fs, &mut db);
    assert_eq!(report.chunks, 2);
    assert_eq!(report.saved.len(), 251);
    let first = stored_id(&fs, "Assets/0.note");
    let last = stored_id(&fs, "Assets/250.note");
    assert_eq!(report.dependents.to_vec(), vec![first, last]);
    assert_eq!(recorded(&fs, 7), Some(vec![first, last]));
}

#[test]
fn further_rounds_import_the_paths_that_the_library_has() {
    let (mut fs, mut db) = project();
    fs.write("Assets/a.note", b"dep:7").unwrap();
    fs.write("Assets/b.note", b"plain").unwrap();
    let list = vec!["Assets/a.note".to_string(), "Assets/b.note".to_string()];
    let report = full_import(&list, &mut fs, &mut db);
    let a = stored_id(&fs, "Assets/a.note");
    assert_eq!(report.rounds, 2);
    assert_eq!(report.chunks, 2);
    assert_eq!(report.saved.len(), 3);
    assert_eq!(report.saved[0].path, "Assets/a.note");
    assert_eq!(report.saved[1].path, "Assets/b.note");
    assert_eq!(report.saved[2].path, "Assets/a.note");
    assert_eq!(report.saved[2].id, a);
    assert!(report.pending.is_empty());
}

#[test]
fn a_save_fails_only_by_the_type_the_header_or_the_store() {
    let (mut fs, _) = project();
    let header = ArtifactMeta::new(AssetId(8), AssetType(5), 11, 21, ids(&[2, 3]));
    // Another type than the importer's: nothing is asked of the store.
    let record = save_imported(&mut fs, "p.note", AssetType(6), imported(&header)).err().unwrap();
    assert!(record.artifact.is_none());
    assert!(matches!(
        record.error,
        ImportCause::Io(AssetIoError::InvalidData(text)) if text == "The asset is of another kind."
    ));
    assert!(!fs.is_file(".cache/artifacts/8"));
    // The importer's type, on a store that takes the write.
    let saved = save_imported(&mut fs, "p.note", AssetType(5), imported(&header)).ok().unwrap();
    assert!(saved.prev_meta.is_none());
    assert_eq!(fs.load_artifact(&AssetId(8)).unwrap().asset(), b"x");
    assert_eq!(fs.load_artifact_meta(&AssetId(8)).unwrap().checksum(), 11);
    // Once more: the header that stood is read.
    let next = ArtifactMeta::new(AssetId(8), AssetType(5), 12, 22, ids(&[3]));
    let saved = save_imported(&mut fs, "p.note", AssetType(5), imported(&next)).ok().unwrap();
    assert_eq!(saved.prev_meta.as_ref().unwrap().checksum(), 11);
    assert_eq!(saved.removed_dependencies.to_vec(), vec![AssetId(2)]);
    // A store that refuses the write: the standing header is on record.
    let mut fs = refuse(fs, ".cache/artifacts");
    let last = ArtifactMeta::new(AssetId(8), AssetType(5), 13, 23, IdSet::new());
    let record = save_imported(&mut fs, "p.note", AssetType(5), imported(&last)).err().unwrap();
    assert_eq!(record.artifact.unwrap().checksum(), 12);
    assert!(matches!(record.error, ImportCause::Io(AssetIoError::Io(_))));
    assert_eq!(fs.load_artifact_meta(&AssetId(8)).unwrap().checksum(), 12);
}
