use asset_pipeline::asset::artifact::{Artifact, ArtifactMeta};
use asset_pipeline::asset::bytes::IntoBytes;
use asset_pipeline::asset::config::AssetConfig;
use asset_pipeline::asset::database::batch::{
    chunked_import, full_import, import_asset, import_assets, load_import_dependencies, CHUNK_SIZE,
};
use asset_pipeline::asset::database::dependents::{
    apply_table, dependents_of_bytes, load_dependents, note, record, update_dependents,
    DependentUpdates, SavedSummary,
};
use asset_pipeline::asset::database::importer::{
    AssetImporter, AssetImporters, AssetProcessor, AssetSaver, AssetStore, CustomError,
    ErasedAssetImporter, ImportCause, ImportError, ImportedAsset, LoadContext, LoadedAsset,
    ProcessContext, SavedAsset,
};
use asset_pipeline::asset::database::AssetDatabase;
use asset_pipeline::asset::io::{AssetFileSystem, AssetIoError, FileSystem};
use asset_pipeline::asset::memory::MemoryFileSystem;
use asset_pipeline::asset::set::IdSet;
use asset_pipeline::asset::sidecar::{
    id_of_integer, integer_of_id, metadata_of_fields, metadata_of_text, text_of_metadata,
};
use asset_pipeline::asset::{Asset, AssetId, AssetMetadata, AssetType, Settings, SettingsType};
use asset_pipeline::dense::DenseMap;

struct Text {
    body: String,
}

impl Asset for Text {}

struct Number(u64);

impl Asset for Number {}

struct Plain {
    scale: i64,
}

impl Settings for Plain {
    fn default_settings() -> Self {
        Plain { scale: 1 }
    }

    fn to_toml(&self) -> Option<toml::Value> {
        let mut table = toml::Table::new();
        table.insert("scale".to_string(), toml::Value::Integer(self.scale));
        Some(toml::Value::Table(table))
    }

    fn from_toml(value: &toml::Value) -> Option<Self> {
        let scale = value.as_table()?.get("scale")?.as_integer()?;
        Some(Plain { scale })
    }
}

struct TextSaver;

impl AssetSaver for TextSaver {
    type Asset = Text;
    type Settings = Plain;

    fn save(asset: &Text, _metadata: &AssetMetadata<Plain>) -> Vec<u8> {
        asset.body.clone().into_bytes()
    }

    fn load(bytes: &[u8]) -> Text {
        Text { body: String::from_utf8_lossy(bytes).to_string() }
    }
}

/// Takes `.txt` sources. A line `dep:<n>` declares the dependency `n`; a
/// source that holds `fail` is refused.
struct TextImporter;

fn numbers_after(body: &str, prefix: &str) -> Vec<u64> {
    body.lines().filter_map(|line| line.strip_prefix(prefix)?.trim().parse().ok()).collect()
}

impl AssetImporter for TextImporter {
    type Asset = Text;
    type Settings = Plain;
    type Saver = TextSaver;

    fn import(ctx: &mut LoadContext<Plain>) -> Result<Text, CustomError> {
        let body = String::from_utf8_lossy(ctx.bytes()).to_string();
        if body.contains("fail") {
            return Err(CustomError::from("refused"));
        }
        for dep in numbers_after(&body, "dep:") {
            ctx.add_dependency(AssetId(dep));
        }
        Ok(Text { body })
    }

    fn extensions() -> Vec<String> {
        vec!["txt".to_string(), "text".to_string()]
    }
}

/// Appends to the asset, for each line `dep:<n>` or `probe:<n>`, whether the
/// context hands out a text asset for `n`.
struct TextProcessor;

impl AssetProcessor for TextProcessor {
    type Importer = TextImporter;

    fn process(asset: &mut Text, ctx: &mut ProcessContext<Plain>) -> Result<(), CustomError> {
        if asset.body.contains("stop") {
            return Err(CustomError::from("stopped"));
        }
        let mut ids = numbers_after(&asset.body, "dep:");
        ids.extend(numbers_after(&asset.body, "probe:"));
        for id in ids {
            match ctx.asset::<Text>(AssetId(id)) {
                Some(text) => asset.body.push_str(&format!("\nsaw:{}:{}", id, text.body.len())),
                None => asset.body.push_str(&format!("\nmissed:{}", id)),
            }
        }
        asset.body.push_str(&format!("\nscale:{}", ctx.metadata().settings().scale));
        Ok(())
    }
}

struct NumberSaver;

impl AssetSaver for NumberSaver {
    type Asset = Number;
    type Settings = Plain;

    fn save(asset: &Number, _metadata: &AssetMetadata<Plain>) -> Vec<u8> {
        asset.0.to_le_bytes().to_vec()
    }

    fn load(bytes: &[u8]) -> Number {
        Number(bytes.len() as u64)
    }
}

struct NumberImporter;

impl AssetImporter for NumberImporter {
    type Asset = Number;
    type Settings = Plain;
    type Saver = NumberSaver;

    fn import(ctx: &mut LoadContext<Plain>) -> Result<Number, CustomError> {
        Ok(Number(ctx.bytes().len() as u64))
    }

    fn extensions() -> Vec<String> {
        vec!["num".to_string()]
    }
}

type Fs = AssetFileSystem<MemoryFileSystem>;
type Db = AssetDatabase<MemoryFileSystem>;

fn project(processor: bool) -> (Fs, Db) {
    let fs = AssetFileSystem::new(AssetConfig::new(""), MemoryFileSystem::new());
    let mut db = AssetDatabase::new();
    if processor {
        let mut importer = ErasedAssetImporter::new::<TextImporter>();
        importer.set_processer::<TextProcessor>();
        db.importers.insert(AssetType::from::<Text>(), importer, TextImporter::extensions());
    } else {
        db.importers.register::<TextImporter>();
    }
    db.importers.register::<NumberImporter>();
    (fs, db)
}

fn paths(list: &[&str]) -> Vec<String> {
    list.iter().map(|path| path.to_string()).collect()
}

fn dependents(fs: &Fs, id: u64) -> Option<Vec<AssetId>> {
    let place = format!(".temp/dependents/{}", id);
    let bytes = fs.read(&place).ok()?;
    Some(IdSet::from_bytes(&bytes)?.to_vec())
}

fn sidecar_id(fs: &Fs, path: &str) -> AssetId {
    fs.load_metadata::<Plain>(path).unwrap().id()
}

#[test]
fn fresh_import_of_one_file() {
    let (mut fs, mut db) = project(false);
    fs.write("Assets/a.txt", b"hello").unwrap();
    let report = full_import(&paths(&["Assets/a.txt"]), &mut fs, &mut db);
    assert_eq!(report.errors.len(), 0);
    assert_eq!(report.saved.len(), 1);
    assert_eq!(report.rounds, 1);
    assert_eq!(report.chunks, 1);
    assert!(fs.is_file("Assets/a.txt.meta"));
    let id = sidecar_id(&fs, "Assets/a.txt");
    assert_eq!(report.saved[0].id, id);
    assert_eq!(report.saved[0].path, "Assets/a.txt");
    assert!(fs.is_file(&format!(".cache/artifacts/{}", id.0)));
    let meta = fs.load_artifact_meta(&id).unwrap();
    assert_eq!(meta.id(), id);
    assert_eq!(meta.ty(), AssetType::from::<Text>());
    assert!(meta.dependencies().is_empty());
    assert!(!fs.is_file(&format!(".temp/dependents/{}", id.0)));
    assert_eq!(fs.load_artifact(&id).unwrap().asset(), b"hello");
    assert_eq!(fs.read("Assets/a.txt").unwrap(), b"hello");
    assert_eq!(db.library.path_id("Assets/a.txt"), Some(&id));
    assert_eq!(db.library().id_path(&id), Some(&"Assets/a.txt".to_string()));
}

#[test]
fn checksum_of_an_import_covers_source_and_sidecar() {
    let (mut fs, mut db) = project(false);
    fs.write("Assets/a.txt", b"hello").unwrap();
    full_import(&paths(&["Assets/a.txt"]), &mut fs, &mut db);
    let id = sidecar_id(&fs, "Assets/a.txt");
    let meta = fs.load_artifact_meta(&id).unwrap();
    let mut both = b"hello".to_vec();
    both.extend(fs.read("Assets/a.txt.meta").unwrap());
    assert_eq!(meta.checksum(), crc32fast::hash(&both));
    fs.write("Assets/a.txt", b"hellp").unwrap();
    full_import(&paths(&["Assets/a.txt"]), &mut fs, &mut db);
    assert_ne!(fs.load_artifact_meta(&id).unwrap().checksum(), meta.checksum());
}

#[test]
fn modified_time_of_the_source_is_recorded() {
    let (fs, mut db) = project(false);
    let mut store = MemoryFileSystem::new();
    store.set_time(1234);
    store.write("Assets/a.txt", b"hello").unwrap();
    let mut fs = AssetFileSystem::new(AssetConfig::new(fs.config().root()), store);
    full_import(&paths(&["Assets/a.txt"]), &mut fs, &mut db);
    let id = sidecar_id(&fs, "Assets/a.txt");
    assert_eq!(fs.load_artifact_meta(&id).unwrap().modified(), 1234);
}

#[test]
fn add_edge() {
    let (mut fs, mut db) = project(false);
    fs.write("Assets/a.txt", b"hello").unwrap();
    full_import(&paths(&["Assets/a.txt"]), &mut fs, &mut db);
    let id = sidecar_id(&fs, "Assets/a.txt");
    fs.write("Assets/a.txt", b"hello\ndep:77").unwrap();
    let report = full_import(&paths(&["Assets/a.txt"]), &mut fs, &mut db);
    assert_eq!(report.errors.len(), 0);
    assert_eq!(sidecar_id(&fs, "Assets/a.txt"), id);
    let meta = fs.load_artifact_meta(&id).unwrap();
    assert_eq!(meta.dependencies().to_vec(), vec![AssetId(77)]);
    assert_eq!(dependents(&fs, 77), Some(vec![id]));
}

#[test]
fn remove_edge() {
    let (mut fs, mut db) = project(false);
    fs.write("Assets/a.txt", b"hello\ndep:77").unwrap();
    full_import(&paths(&["Assets/a.txt"]), &mut fs, &mut db);
    let id = sidecar_id(&fs, "Assets/a.txt");
    assert_eq!(dependents(&fs, 77), Some(vec![id]));
    fs.write("Assets/a.txt", b"hello").unwrap();
    let report = full_import(&paths(&["Assets/a.txt"]), &mut fs, &mut db);
    assert_eq!(report.saved.len(), 1);
    assert_eq!(report.saved[0].removed.to_vec(), vec![AssetId(77)]);
    assert_eq!(report.saved[0].previous.as_ref().unwrap().to_vec(), vec![AssetId(77)]);
    assert!(report.saved[0].dependencies.is_empty());
    assert_eq!(report.rounds, 1);
    assert!(report.pending.is_empty());
    assert!(fs.load_artifact_meta(&id).unwrap().dependencies().is_empty());
    assert!(!fs.is_file(".temp/dependents/77"));
    assert_eq!(dependents(&fs, 77), None);
}

#[test]
fn one_of_two_dependents_leaves() {
    let (mut fs, mut db) = project(false);
    fs.write("Assets/a.txt", b"dep:5").unwrap();
    fs.write("Assets/b.txt", b"dep:5\ndep:6").unwrap();
    full_import(&paths(&["Assets/a.txt", "Assets/b.txt"]), &mut fs, &mut db);
    let a = sidecar_id(&fs, "Assets/a.txt");
    let b = sidecar_id(&fs, "Assets/b.txt");
    assert_eq!(dependents(&fs, 5), Some(vec![a, b]));
    assert_eq!(dependents(&fs, 6), Some(vec![b]));
    fs.write("Assets/a.txt", b"none").unwrap();
    full_import(&paths(&["Assets/a.txt"]), &mut fs, &mut db);
    assert_eq!(dependents(&fs, 5), Some(vec![b]));
    assert_eq!(dependents(&fs, 6), Some(vec![b]));
}

#[test]
fn reverse_index_is_the_transpose_after_a_batch() {
    let (mut fs, mut db) = project(false);
    fs.write("Assets/a.txt", b"dep:1\ndep:2").unwrap();
    fs.write("Assets/b.txt", b"dep:2\ndep:3").unwrap();
    fs.write("Assets/c.txt", b"plain").unwrap();
    let all = paths(&["Assets/a.txt", "Assets/b.txt", "Assets/c.txt"]);
    full_import(&all, &mut fs, &mut db);
    fs.write("Assets/a.txt", b"dep:3").unwrap();
    fs.write("Assets/c.txt", b"dep:1").unwrap();
    full_import(&all, &mut fs, &mut db);
    let ids: Vec<AssetId> = all.iter().map(|path| sidecar_id(&fs, path)).collect();
    for target in 0u64..5 {
        let recorded = dependents(&fs, target).unwrap_or_default();
        for id in &ids {
            let meta = fs.load_artifact_meta(id).unwrap();
            assert_eq!(
                meta.dependencies().contains(AssetId(target)),
                recorded.contains(id),
                "target {} asset {:?}",
                target,
                id
            );
        }
    }
}

#[test]
fn assets_with_dependencies_are_imported_once_more() {
    let (mut fs, mut db) = project(false);
    fs.write("Assets/a.txt", b"hello").unwrap();
    full_import(&paths(&["Assets/a.txt"]), &mut fs, &mut db);
    let a = sidecar_id(&fs, "Assets/a.txt");
    fs.write("Assets/b.txt", format!("dep:{}", a.0).as_bytes()).unwrap();
    let report = full_import(&paths(&["Assets/b.txt"]), &mut fs, &mut db);
    let b = sidecar_id(&fs, "Assets/b.txt");
    assert_eq!(report.rounds, 2);
    assert_eq!(report.chunks, 2);
    assert_eq!(report.saved.len(), 2);
    assert_eq!(report.saved[0].id, b);
    assert_eq!(report.saved[1].id, b);
    assert!(report.saved[0].previous.is_none());
    assert_eq!(report.saved[1].previous.as_ref().unwrap().to_vec(), vec![a]);
    assert!(report.pending.is_empty());
    assert!(report.unrecorded.is_empty());
    assert_eq!(dependents(&fs, a.0), Some(vec![b]));
    // The edge is on record now: one more import of `b` adds none.
    let again = full_import(&paths(&["Assets/b.txt"]), &mut fs, &mut db);
    assert_eq!(again.rounds, 1);
    assert_eq!(again.saved.len(), 1);
    assert!(again.pending.is_empty());
    assert_eq!(dependents(&fs, a.0), Some(vec![b]));
}

#[test]
fn a_batch_asks_only_for_assets_that_newly_depend() {
    let (mut fs, mut db) = project(false);
    fs.write("Assets/a.txt", b"dep:5").unwrap();
    fs.write("Assets/b.txt", b"plain").unwrap();
    let both = paths(&["Assets/a.txt", "Assets/b.txt"]);
    let first = import_assets(&both, &mut fs, &mut db);
    let a = sidecar_id(&fs, "Assets/a.txt");
    assert_eq!(first.dependents.to_vec(), vec![a]);
    let second = import_assets(&both, &mut fs, &mut db);
    assert_eq!(second.saved.len(), 2);
    assert!(second.dependents.is_empty());
    fs.write("Assets/a.txt", b"dep:5\ndep:6").unwrap();
    let third = import_assets(&both, &mut fs, &mut db);
    assert_eq!(third.dependents.to_vec(), vec![a]);
    assert_eq!(dependents(&fs, 6), Some(vec![a]));
    fs.write("Assets/a.txt", b"dep:6").unwrap();
    let fourth = import_assets(&both, &mut fs, &mut db);
    assert!(fourth.dependents.is_empty());
    assert_eq!(dependents(&fs, 5), None);
}

#[test]
fn propagation() {
    // `b` depends on `a`; then `a` changes and is imported alone. A batch
    // asks again for the assets that newly depend on something, and `a`
    // depends on nothing: the import ends after one round of one chunk, and
    // the edge from `b` to `a` stays on record.
    let (mut fs, mut db) = project(false);
    fs.write("Assets/a.txt", b"hello").unwrap();
    full_import(&paths(&["Assets/a.txt"]), &mut fs, &mut db);
    let a = sidecar_id(&fs, "Assets/a.txt");
    fs.write("Assets/b.txt", format!("dep:{}", a.0).as_bytes()).unwrap();
    full_import(&paths(&["Assets/b.txt"]), &mut fs, &mut db);
    let b = sidecar_id(&fs, "Assets/b.txt");
    fs.write("Assets/a.txt", b"changed").unwrap();
    let report = full_import(&paths(&["Assets/a.txt"]), &mut fs, &mut db);
    assert_eq!(report.rounds, 1);
    assert_eq!(report.chunks, 1);
    assert_eq!(report.saved.len(), 1);
    assert_eq!(report.saved[0].id, a);
    assert_eq!(dependents(&fs, a.0), Some(vec![b]));
    assert_eq!(fs.load_artifact(&a).unwrap().asset(), b"changed");
}

#[test]
fn a_cycle_ends() {
    let (mut fs, mut db) = project(false);
    fs.write("Assets/a.txt", b"a").unwrap();
    fs.write("Assets/b.txt", b"b").unwrap();
    let both = paths(&["Assets/a.txt", "Assets/b.txt"]);
    full_import(&both, &mut fs, &mut db);
    let a = sidecar_id(&fs, "Assets/a.txt");
    let b = sidecar_id(&fs, "Assets/b.txt");
    fs.write("Assets/a.txt", format!("dep:{}", b.0).as_bytes()).unwrap();
    fs.write("Assets/b.txt", format!("dep:{}", a.0).as_bytes()).unwrap();
    let report = full_import(&both, &mut fs, &mut db);
    assert_eq!(report.rounds, 2);
    assert_eq!(report.saved.len(), 4);
    assert_eq!(dependents(&fs, a.0), Some(vec![b]));
    assert_eq!(dependents(&fs, b.0), Some(vec![a]));
}

#[test]
fn unknown_extension() {
    let (mut fs, mut db) = project(false);
    fs.write("Assets/x.unknown", b"data").unwrap();
    let report = full_import(&paths(&["Assets/x.unknown"]), &mut fs, &mut db);
    assert_eq!(report.saved.len(), 0);
    assert_eq!(report.errors.len(), 1);
    assert!(matches!(&report.errors[0].error, ImportCause::NoImporter(ext) if ext == "unknown"));
    assert_eq!(report.errors[0].path, "Assets/x.unknown");
    assert_eq!(report.errors[0].id, AssetId(0));
    assert!(report.errors[0].artifact.is_none());
    assert!(!fs.is_file("Assets/x.unknown.meta"));
    assert!(fs.read_directory(".cache", true).unwrap().is_empty());
    assert!(fs.read_directory(".temp", true).unwrap().is_empty());
    assert_eq!(db.library.len(), 0);
}

#[test]
fn no_extension() {
    let (mut fs, mut db) = project(false);
    fs.write("Assets/readme", b"data").unwrap();
    let report = full_import(&paths(&["Assets/readme"]), &mut fs, &mut db);
    assert_eq!(report.errors.len(), 1);
    assert!(matches!(report.errors[0].error, ImportCause::NoExtension));
    assert!(!fs.is_file("Assets/readme.meta"));
}

#[test]
fn extensions_are_matched_exactly() {
    let (mut fs, mut db) = project(false);
    fs.write("Assets/a.TXT", b"data").unwrap();
    fs.write("Assets/b.text", b"data").unwrap();
    let report = full_import(&paths(&["Assets/a.TXT", "Assets/b.text"]), &mut fs, &mut db);
    assert_eq!(report.errors.len(), 1);
    assert!(matches!(report.errors[0].error, ImportCause::NoImporter(_)));
    assert_eq!(report.saved.len(), 1);
    assert_eq!(report.saved[0].path, "Assets/b.text");
}

#[test]
fn corrupt_artifact_header() {
    let (mut fs, mut db) = project(false);
    fs.write("Assets/a.txt", b"hello").unwrap();
    full_import(&paths(&["Assets/a.txt"]), &mut fs, &mut db);
    let id = sidecar_id(&fs, "Assets/a.txt");
    let place = format!(".cache/artifacts/{}", id.0);
    let mut bytes = fs.read(&place).unwrap();
    for byte in bytes.iter_mut().take(8) {
        *byte = 0;
    }
    fs.write(&place, &bytes).unwrap();
    assert!(matches!(fs.load_artifact_meta(&id), Err(AssetIoError::InvalidData(_))));
    let report = full_import(&paths(&["Assets/a.txt"]), &mut fs, &mut db);
    assert_eq!(report.errors.len(), 0);
    assert_eq!(fs.load_artifact_meta(&id).unwrap().id(), id);
    assert_eq!(fs.load_artifact(&id).unwrap().asset(), b"hello");
}

#[test]
fn id_is_stable_while_the_sidecar_exists() {
    let (mut fs, mut db) = project(false);
    fs.write("Assets/a.txt", b"one").unwrap();
    full_import(&paths(&["Assets/a.txt"]), &mut fs, &mut db);
    let first = sidecar_id(&fs, "Assets/a.txt");
    fs.write("Assets/a.txt", b"two").unwrap();
    full_import(&paths(&["Assets/a.txt"]), &mut fs, &mut db);
    assert_eq!(sidecar_id(&fs, "Assets/a.txt"), first);
    fs.remove("Assets/a.txt.meta").unwrap();
    full_import(&paths(&["Assets/a.txt"]), &mut fs, &mut db);
    let fresh = sidecar_id(&fs, "Assets/a.txt");
    assert_ne!(fresh, first);
    assert_eq!(db.library.path_id("Assets/a.txt"), Some(&fresh));
    assert_eq!(db.library.id_path(&first), None);
}

#[test]
fn missing_source_is_an_io_failure() {
    let (mut fs, mut db) = project(false);
    let report = full_import(&paths(&["Assets/gone.txt"]), &mut fs, &mut db);
    assert_eq!(report.saved.len(), 0);
    assert_eq!(report.errors.len(), 1);
    assert!(matches!(report.errors[0].error, ImportCause::Io(AssetIoError::NotFound(_))));
}

#[test]
fn importer_failure_is_recorded_and_the_batch_goes_on() {
    let (mut fs, mut db) = project(false);
    fs.write("Assets/a.txt", b"fail").unwrap();
    fs.write("Assets/b.txt", b"fine").unwrap();
    let report = full_import(&paths(&["Assets/a.txt", "Assets/b.txt"]), &mut fs, &mut db);
    assert_eq!(report.errors.len(), 1);
    assert!(matches!(&report.errors[0].error, ImportCause::Importer(error) if error.0 == "refused"));
    assert_eq!(report.errors[0].id, sidecar_id(&fs, "Assets/a.txt"));
    assert_eq!(report.saved.len(), 1);
    assert_eq!(report.saved[0].path, "Assets/b.txt");
    let failed = sidecar_id(&fs, "Assets/a.txt");
    assert!(fs.load_artifact_meta(&failed).is_err());
}

#[test]
fn processor_sees_declared_and_loaded_dependencies_only() {
    let (mut fs, mut db) = project(true);
    fs.write("Assets/a.txt", b"12345").unwrap();
    fs.write("Assets/n.num", b"123").unwrap();
    full_import(&paths(&["Assets/a.txt", "Assets/n.num"]), &mut fs, &mut db);
    let a = sidecar_id(&fs, "Assets/a.txt");
    let n = sidecar_id(&fs, "Assets/n.num");
    let body = format!("dep:{}\ndep:{}\ndep:999\nprobe:{}", a.0, n.0, a.0 + 1);
    fs.write("Assets/b.txt", body.as_bytes()).unwrap();
    let report = full_import(&paths(&["Assets/b.txt"]), &mut fs, &mut db);
    assert_eq!(report.errors.len(), 0);
    let b = sidecar_id(&fs, "Assets/b.txt");
    let payload = String::from_utf8(fs.load_artifact(&b).unwrap().asset().to_vec()).unwrap();
    // The processed text of `a` is what its artifact holds: the source and the scale line.
    let a_len = fs.load_artifact(&a).unwrap().asset().len();
    assert!(payload.contains(&format!("\nsaw:{}:{}", a.0, a_len)), "{}", payload);
    // `n` is declared and loaded, but is no text asset.
    assert!(payload.contains(&format!("\nmissed:{}", n.0)), "{}", payload);
    // 999 is declared but has no artifact.
    assert!(payload.contains("\nmissed:999"), "{}", payload);
    // An id that is not declared is not handed out.
    assert!(payload.contains(&format!("\nmissed:{}", a.0 + 1)), "{}", payload);
    assert!(payload.contains("\nscale:1"), "{}", payload);
}

#[test]
fn undeclared_asset_is_hidden_even_when_loaded() {
    let mut store = AssetStore::new();
    let meta = ArtifactMeta::new(AssetId(1), AssetType::from::<Text>(), 0, 0, IdSet::new());
    store.insert(AssetId(1), LoadedAsset::new(Text { body: "x".to_string() }, meta));
    let metadata = AssetMetadata::new(AssetId(9), Plain { scale: 2 });
    let mut declared = IdSet::new();
    let ctx = ProcessContext::new(&store, &metadata, &declared);
    assert!(ctx.asset::<Text>(AssetId(1)).is_none());
    declared.insert(AssetId(1));
    declared.insert(AssetId(2));
    let ctx = ProcessContext::new(&store, &metadata, &declared);
    assert_eq!(ctx.asset::<Text>(AssetId(1)).unwrap().body, "x");
    assert!(ctx.asset::<Number>(AssetId(1)).is_none());
    assert!(ctx.asset::<Text>(AssetId(2)).is_none());
    assert_eq!(ctx.metadata().id(), AssetId(9));
}

#[test]
fn processor_failure_is_recorded() {
    let (mut fs, mut db) = project(true);
    fs.write("Assets/a.txt", b"stop").unwrap();
    let report = full_import(&paths(&["Assets/a.txt"]), &mut fs, &mut db);
    assert_eq!(report.errors.len(), 1);
    assert!(matches!(&report.errors[0].error, ImportCause::Processor(error) if error.0 == "stopped"));
    let id = sidecar_id(&fs, "Assets/a.txt");
    assert_eq!(report.errors[0].id, id);
    assert!(!fs.is_file(&format!(".cache/artifacts/{}", id.0)));
}

#[test]
fn chunks_hold_two_hundred_and_fifty_paths() {
    assert_eq!(CHUNK_SIZE, 250);
    let (mut fs, mut db) = project(false);
    let mut list = vec![];
    for i in 0..501 {
        let path = format!("Assets/{}.txt", i);
        fs.write(&path, b"x").unwrap();
        list.push(path);
    }
    let report = chunked_import(&list, &mut fs, &mut db);
    assert_eq!(report.chunks, 3);
    assert_eq!(report.saved.len(), 501);
    assert!(report.dependents.is_empty());
    let none = chunked_import(&[], &mut fs, &mut db);
    assert_eq!(none.chunks, 0);
    let exact = chunked_import(&list[..250], &mut fs, &mut db);
    assert_eq!(exact.chunks, 1);
}

#[test]
fn empty_import_does_nothing() {
    let (mut fs, mut db) = project(false);
    let report = full_import(&[], &mut fs, &mut db);
    assert_eq!(report.rounds, 1);
    assert_eq!(report.chunks, 0);
    assert!(report.saved.is_empty());
    assert!(report.errors.is_empty());
}

#[test]
fn a_first_batch_asks_again_for_every_asset_that_depends() {
    let (mut fs, mut db) = project(false);
    fs.write("Assets/a.txt", b"dep:1\ndep:2").unwrap();
    fs.write("Assets/b.txt", b"plain").unwrap();
    fs.write("Assets/c.txt", b"dep:2").unwrap();
    fs.write("Assets/d.bad", b"dep:2").unwrap();
    let list = paths(&["Assets/a.txt", "Assets/b.txt", "Assets/c.txt", "Assets/d.bad"]);
    let report = import_assets(&list, &mut fs, &mut db);
    assert_eq!(report.chunks, 1);
    assert_eq!(report.saved.len(), 3);
    assert_eq!(report.errors.len(), 1);
    let a = sidecar_id(&fs, "Assets/a.txt");
    let c = sidecar_id(&fs, "Assets/c.txt");
    assert_eq!(report.dependents.to_vec(), vec![a, c]);
    assert_eq!(dependents(&fs, 1), Some(vec![a]));
    assert_eq!(dependents(&fs, 2), Some(vec![a, c]));
}

#[test]
fn import_asset_reports_previous_header_and_removed_edges() {
    let (mut fs, db) = project(false);
    let mut store = AssetStore::new();
    fs.write("Assets/a.txt", b"dep:1\ndep:2").unwrap();
    let first = import_asset("Assets/a.txt", &mut fs, &db, &mut store).ok().unwrap();
    assert!(first.prev_meta.is_none());
    assert!(first.removed_dependencies.is_empty());
    assert_eq!(first.meta.dependencies().to_vec(), vec![AssetId(1), AssetId(2)]);
    assert_eq!(first.asset::<Text>().unwrap().body, "dep:1\ndep:2");
    assert!(first.asset::<Number>().is_none());
    fs.write("Assets/a.txt", b"dep:2\ndep:3").unwrap();
    let second = import_asset("Assets/a.txt", &mut fs, &db, &mut store).ok().unwrap();
    let previous = second.prev_meta.as_ref().unwrap();
    assert_eq!(previous.dependencies().to_vec(), vec![AssetId(1), AssetId(2)]);
    assert_eq!(second.removed_dependencies.to_vec(), vec![AssetId(1)]);
    assert_eq!(second.gone().to_vec(), vec![AssetId(1)]);
    assert_eq!(second.previous().unwrap().dependencies().len(), 2);
    assert_eq!(second.header().id(), first.meta.id());
    assert_eq!(second.meta.id(), first.meta.id());
    let loaded: LoadedAsset = second.into();
    assert_eq!(loaded.asset::<Text>().unwrap().body, "dep:2\ndep:3");
    assert_eq!(loaded.meta().dependencies().to_vec(), vec![AssetId(2), AssetId(3)]);
}

#[test]
fn erased_importer_imports_saves_and_loads() {
    let (mut fs, _) = project(false);
    let mut importer = ErasedAssetImporter::<MemoryFileSystem>::new::<TextImporter>();
    assert!(importer.process.is_none());
    assert!(!importer.processes());
    fs.write("Assets/a.txt", b"dep:4").unwrap();
    let mut imported = importer.import(&mut fs, "Assets/a.txt").ok().unwrap();
    assert_eq!(imported.artifact().dependencies().to_vec(), vec![AssetId(4)]);
    assert_eq!(imported.asset::<Text>().unwrap().body, "dep:4");
    assert!(imported.asset::<Number>().is_none());
    assert_eq!(imported.metadata::<Plain>().unwrap().settings().scale, 1);
    assert_eq!(imported.metadata::<Plain>().unwrap().id(), imported.artifact.id());
    imported.asset_mut::<Text>().unwrap().body.push('!');
    {
        let (asset, metadata, artifact) = imported.mutate::<Text, Plain>().unwrap();
        assert_eq!(asset.body, "dep:4!");
        assert_eq!(metadata.id(), artifact.id());
    }
    assert!(imported.mutate::<Number, Plain>().is_none());
    let store = AssetStore::new();
    assert!(importer.process("Assets/a.txt", &mut imported, &store).is_ok());
    let saved = importer.save(&mut fs, "Assets/a.txt", imported).ok().unwrap();
    let artifact = fs.load_artifact(&saved.meta.id()).unwrap();
    assert_eq!(artifact.asset(), b"dep:4!");
    let loaded = importer.load(artifact).unwrap();
    assert_eq!(loaded.asset::<Text>().unwrap().body, "dep:4!");
    assert_eq!(loaded.meta().id(), saved.meta.id());
    importer.set_processer::<TextProcessor>();
    assert!(importer.process.is_some());
}

#[test]
fn saving_an_asset_of_another_kind_fails_and_writes_nothing() {
    let (mut fs, _) = project(false);
    let importer = ErasedAssetImporter::<MemoryFileSystem>::new::<TextImporter>();
    let meta = ArtifactMeta::new(AssetId(5), AssetType(0), 0, 0, IdSet::new());
    let imported = ImportedAsset::new::<NumberSaver>(
        Number(1),
        AssetMetadata::new(AssetId(5), Plain { scale: 1 }),
        meta,
    );
    let error = importer.save(&mut fs, "Assets/a.txt", imported).err().unwrap();
    assert_eq!(error.id, AssetId(5));
    assert_eq!(error.path, "Assets/a.txt");
    assert!(error.artifact.is_none());
    assert!(matches!(
        error.error,
        ImportCause::Io(AssetIoError::InvalidData(text)) if text == "The asset is of another kind."
    ));
    assert!(!fs.is_file(".cache/artifacts/5"));
    // An asset whose header has the importer's type is saved.
    let meta = ArtifactMeta::new(AssetId(6), importer.ty(), 0, 0, IdSet::new());
    let text = Text { body: "right".to_string() };
    let imported = ImportedAsset::new::<TextSaver>(
        text,
        AssetMetadata::new(AssetId(6), Plain { scale: 1 }),
        meta,
    );
    assert_eq!(imported.payload(), b"right");
    let saved = importer.save(&mut fs, "Assets/a.txt", imported).ok().unwrap();
    assert_eq!(saved.meta.id(), AssetId(6));
    assert!(saved.prev_meta.is_none());
    assert_eq!(fs.load_artifact(&AssetId(6)).unwrap().asset(), b"right");
}

#[test]
fn registry_finds_importers_by_type_and_extension() {
    let mut registry = AssetImporters::<MemoryFileSystem>::new();
    assert!(registry.importer_by_ext("txt").is_none());
    registry.register::<TextImporter>();
    assert!(registry.importer(AssetType::from::<Text>()).is_some());
    assert!(registry.importer(AssetType::from::<Number>()).is_none());
    assert!(registry.importer_by_ext("txt").is_some());
    assert!(registry.importer_by_ext("text").is_some());
    assert!(registry.importer_by_ext("num").is_none());
    assert!(registry.importer_by_ext(".txt").is_none());
    assert_eq!(registry.type_of_ext("txt"), Some(AssetType::from::<Text>()));
    // A later registration takes an extension over.
    registry.insert(
        AssetType::from::<Number>(),
        ErasedAssetImporter::new::<NumberImporter>(),
        vec!["txt".to_string()],
    );
    assert_eq!(registry.type_of_ext("txt"), Some(AssetType::from::<Number>()));
    assert_eq!(registry.type_of_ext("text"), Some(AssetType::from::<Text>()));
    // An extension whose type has no importer finds none.
    registry.insert(AssetType(1), ErasedAssetImporter::new::<NumberImporter>(), vec![]);
    let mut other = AssetImporters::<MemoryFileSystem>::new();
    other.insert(AssetType(1), ErasedAssetImporter::new::<NumberImporter>(), vec!["a".to_string()]);
    assert!(other.importer_by_ext("a").is_some());
    assert!(other.importer(AssetType(2)).is_none());
}

#[test]
fn type_tags_tell_kinds_apart() {
    assert_eq!(AssetType::from::<Text>(), AssetType::from::<Text>());
    assert_ne!(AssetType::from::<Text>(), AssetType::from::<Number>());
    assert_eq!(SettingsType::from::<Plain>(), SettingsType::from::<Plain>());
}

#[test]
fn dependents_update_adds_then_removes() {
    let mut updates = DependentUpdates::new();
    updates.add(AssetId(1));
    updates.add(AssetId(2));
    updates.add(AssetId(1));
    updates.remove(AssetId(3));
    updates.remove(AssetId(2));
    assert_eq!(updates.added().to_vec(), vec![AssetId(1), AssetId(2)]);
    assert_eq!(updates.removed().to_vec(), vec![AssetId(3), AssetId(2)]);
    let mut before = IdSet::new();
    before.insert(AssetId(3));
    before.insert(AssetId(4));
    assert_eq!(updates.apply(before).to_vec(), vec![AssetId(4), AssetId(1)]);
}

#[test]
fn dependents_of_unreadable_bytes_are_none() {
    assert!(dependents_of_bytes(None).is_empty());
    assert!(dependents_of_bytes(Some(vec![1, 2, 3])).is_empty());
    let mut set = IdSet::new();
    set.insert(AssetId(8));
    assert_eq!(dependents_of_bytes(Some(set.into_bytes())).to_vec(), vec![AssetId(8)]);
}

#[test]
fn update_dependents_writes_or_removes_the_file() {
    let (mut fs, _) = project(false);
    let mut updates = DependentUpdates::new();
    updates.add(AssetId(1));
    let fresh = update_dependents(AssetId(9), &mut fs, &updates).unwrap();
    assert_eq!(fresh.to_vec(), vec![AssetId(1)]);
    assert_eq!(dependents(&fs, 9), Some(vec![AssetId(1)]));
    assert_eq!(load_dependents(AssetId(9), &fs).unwrap().to_vec(), vec![AssetId(1)]);
    let again = update_dependents(AssetId(9), &mut fs, &updates).unwrap();
    assert!(again.is_empty());
    assert!(load_dependents(AssetId(8), &fs).unwrap().is_empty());
    let mut more = DependentUpdates::new();
    more.add(AssetId(2));
    update_dependents(AssetId(9), &mut fs, &more).unwrap();
    assert_eq!(dependents(&fs, 9), Some(vec![AssetId(1), AssetId(2)]));
    let mut gone = DependentUpdates::new();
    gone.remove(AssetId(1));
    gone.remove(AssetId(2));
    update_dependents(AssetId(9), &mut fs, &gone).unwrap();
    assert!(!fs.is_file(".temp/dependents/9"));
    // Removing from an index that has no file leaves no file.
    update_dependents(AssetId(9), &mut fs, &gone).unwrap();
    assert!(!fs.is_file(".temp/dependents/9"));
}

#[test]
fn update_dependents_takes_an_unreadable_file_as_empty() {
    let (mut fs, _) = project(false);
    fs.write(".temp/dependents/9", &[1, 2, 3]).unwrap();
    let mut updates = DependentUpdates::new();
    updates.add(AssetId(1));
    update_dependents(AssetId(9), &mut fs, &updates).unwrap();
    assert_eq!(dependents(&fs, 9), Some(vec![AssetId(1)]));
}

#[test]
fn table_records_added_and_removed_edges() {
    let mut table: DenseMap<u64, DependentUpdates> = DenseMap::new();
    let mut deps = IdSet::new();
    deps.insert(AssetId(1));
    deps.insert(AssetId(2));
    let mut removed = IdSet::new();
    removed.insert(AssetId(3));
    let summary =
        SavedSummary {
            path: "p".to_string(),
            id: AssetId(50),
            dependencies: deps,
            previous: None,
            removed,
        };
    record(&mut table, &summary);
    note(&mut table, AssetId(1), AssetId(60), true);
    note(&mut table, AssetId(1), AssetId(50), false);
    assert_eq!(table.keys(), &[1, 2, 3]);
    assert_eq!(table.get(&1).unwrap().added().to_vec(), vec![AssetId(50), AssetId(60)]);
    assert_eq!(table.get(&1).unwrap().removed().to_vec(), vec![AssetId(50)]);
    assert_eq!(table.get(&2).unwrap().added().to_vec(), vec![AssetId(50)]);
    assert!(table.get(&3).unwrap().added().is_empty());
    assert_eq!(table.get(&3).unwrap().removed().to_vec(), vec![AssetId(50)]);
}

#[test]
fn table_is_applied_to_the_files_of_the_dependents() {
    let (mut fs, _) = project(false);
    let mut old = IdSet::new();
    old.insert(AssetId(70));
    fs.write(".temp/dependents/3", &old.into_bytes()).unwrap();
    fs.write("Assets/a.txt", b"untouched").unwrap();
    let mut table: DenseMap<u64, DependentUpdates> = DenseMap::new();
    note(&mut table, AssetId(1), AssetId(50), true);
    note(&mut table, AssetId(2), AssetId(50), true);
    note(&mut table, AssetId(2), AssetId(60), true);
    note(&mut table, AssetId(3), AssetId(70), false);
    note(&mut table, AssetId(4), AssetId(50), false);
    let (refused, fresh) = apply_table(&table, &mut fs);
    assert!(refused.is_empty());
    assert_eq!(fresh.to_vec(), vec![AssetId(50), AssetId(60)]);
    assert_eq!(dependents(&fs, 1), Some(vec![AssetId(50)]));
    assert_eq!(dependents(&fs, 2), Some(vec![AssetId(50), AssetId(60)]));
    assert!(!fs.is_file(".temp/dependents/3"));
    assert!(!fs.is_file(".temp/dependents/4"));
    assert_eq!(fs.read("Assets/a.txt").unwrap(), b"untouched");
}

#[test]
fn dependencies_are_loaded_from_their_artifacts() {
    let (mut fs, mut db) = project(false);
    fs.write("Assets/a.txt", b"hello").unwrap();
    fs.write("Assets/n.num", b"12").unwrap();
    full_import(&paths(&["Assets/a.txt", "Assets/n.num"]), &mut fs, &mut db);
    let a = sidecar_id(&fs, "Assets/a.txt");
    let n = sidecar_id(&fs, "Assets/n.num");
    fs.write(".cache/artifacts/5", &[1, 2, 3]).unwrap();
    let unknown = ArtifactMeta::new(AssetId(6), AssetType(12345), 0, 0, IdSet::new());
    fs.write(".cache/artifacts/6", &Artifact::new(unknown, vec![]).into_bytes()).unwrap();
    let mut ids = IdSet::new();
    for id in [a, AssetId(4), AssetId(5), AssetId(6), n] {
        ids.insert(id);
    }
    let mut store = AssetStore::new();
    load_import_dependencies(&ids, &fs, &db, &mut store);
    assert!(store.contains(&a));
    assert!(store.contains(&n));
    assert!(!store.contains(&AssetId(4)));
    assert!(!store.contains(&AssetId(5)));
    assert!(!store.contains(&AssetId(6)));
    assert_eq!(store.get::<Text>(a).unwrap().body, "hello");
    assert!(store.get::<Text>(n).is_none());
    assert_eq!(store.get::<Number>(n).unwrap().0, 8);
}

#[test]
fn asset_store_holds_assets_by_id() {
    let mut store = AssetStore::new();
    let meta = |id: u64| ArtifactMeta::new(AssetId(id), AssetType(1), 0, 0, IdSet::new());
    store.insert(AssetId(1), LoadedAsset::new(Number(10), meta(1)));
    store.insert(AssetId(2), LoadedAsset::new(Number(20), meta(2)));
    let mut other = AssetStore::new();
    other.insert(AssetId(2), LoadedAsset::new(Number(21), meta(2)));
    other.insert(AssetId(3), LoadedAsset::new(Number(30), meta(3)));
    store.extend(other);
    assert_eq!(store.get::<Number>(AssetId(1)).unwrap().0, 10);
    assert_eq!(store.get::<Number>(AssetId(2)).unwrap().0, 21);
    assert_eq!(store.get::<Number>(AssetId(3)).unwrap().0, 30);
    assert!(store.get::<Text>(AssetId(3)).is_none());
    let removed = store.remove(AssetId(1)).unwrap();
    assert_eq!(removed.meta().id(), AssetId(1));
    assert!(store.remove(AssetId(1)).is_none());
    assert!(!store.contains(&AssetId(1)));
    store.clear();
    assert!(!store.contains(&AssetId(2)));
}

#[test]
fn load_context_collects_dependencies() {
    let metadata = AssetMetadata::new(AssetId(1), Plain { scale: 3 });
    let mut ctx = LoadContext::new("Assets/a.txt", b"bytes", &metadata);
    assert_eq!(ctx.path(), "Assets/a.txt");
    assert_eq!(ctx.bytes(), b"bytes");
    assert_eq!(ctx.metadata().settings().scale, 3);
    assert!(ctx.dependencies().is_empty());
    ctx.add_dependency(AssetId(5));
    ctx.add_dependency(AssetId(6));
    ctx.add_dependency(AssetId(5));
    assert_eq!(ctx.dependencies().to_vec(), vec![AssetId(5), AssetId(6)]);
    assert_eq!(ctx.finish().to_vec(), vec![AssetId(5), AssetId(6)]);
}

#[test]
fn import_error_carries_the_previous_header() {
    let error = ImportError::new("p", AssetId(1), ImportCause::NoExtension);
    assert_eq!(error.path, "p");
    assert_eq!(error.id, AssetId(1));
    assert!(error.artifact.is_none());
    let meta = ArtifactMeta::new(AssetId(1), AssetType(2), 3, 4, IdSet::new());
    let error = error.with_artifact(meta.clone());
    assert_eq!(error.artifact.as_ref().unwrap().checksum(), 3);
    let error = error.with_option_artifact(None);
    assert!(error.artifact.is_none());
    let error = error.with_option_artifact(Some(meta));
    assert_eq!(error.artifact.unwrap().modified(), 4);
    assert_eq!(CustomError::from("x").to_string(), "Custom error: x");
}

#[test]
fn saved_asset_keeps_its_parts() {
    let meta = ArtifactMeta::new(AssetId(1), AssetType(2), 3, 4, IdSet::new());
    let mut removed = IdSet::new();
    removed.insert(AssetId(9));
    let saved = SavedAsset::new(Number(7), meta.clone(), Some(meta), removed);
    assert_eq!(saved.asset::<Number>().unwrap().0, 7);
    assert_eq!(saved.meta.id(), AssetId(1));
    assert_eq!(saved.prev_meta.as_ref().unwrap().checksum(), 3);
    assert_eq!(saved.removed_dependencies.to_vec(), vec![AssetId(9)]);
}

#[test]
fn metadata_holds_id_and_settings() {
    let metadata = AssetMetadata::new(AssetId(4), Plain { scale: 2 });
    assert_eq!(metadata.id(), AssetId(4));
    assert_eq!(metadata.settings().scale, 2);
    let (id, settings) = metadata.take();
    assert_eq!(id, AssetId(4));
    assert_eq!(settings.scale, 2);
    let first = AssetMetadata::<Plain>::default();
    let second = AssetMetadata::<Plain>::default();
    assert_eq!(first.settings().scale, 1);
    assert_ne!(first.id(), second.id());
}

#[test]
fn sidecar_text_round_trips() {
    for id in [0u64, 1, i64::MAX as u64, i64::MAX as u64 + 1, u64::MAX] {
        let text = text_of_metadata(&AssetMetadata::new(AssetId(id), Plain { scale: 7 })).unwrap();
        let back = metadata_of_text::<Plain>(&text).unwrap();
        assert_eq!(back.id(), AssetId(id));
        assert_eq!(back.settings().scale, 7);
    }
}

#[test]
fn sidecar_is_a_toml_table_with_id_and_settings() {
    let text = text_of_metadata(&AssetMetadata::new(AssetId(12), Plain { scale: 7 })).unwrap();
    let table: toml::Table = text.parse().unwrap();
    assert_eq!(table.get("id").unwrap().as_integer(), Some(12));
    assert_eq!(table["settings"]["scale"].as_integer(), Some(7));
    let read = metadata_of_text::<Plain>("extra = true\nid = 5\n[settings]\nscale = 9\nmore = 1");
    let read = read.unwrap();
    assert_eq!(read.id(), AssetId(5));
    assert_eq!(read.settings().scale, 9);
}

#[test]
fn sidecar_without_a_readable_field_is_invalid() {
    let invalid = |text: &str| {
        matches!(metadata_of_text::<Plain>(text), Err(AssetIoError::InvalidData(_)))
    };
    assert!(invalid("not toml at all ["));
    assert!(invalid("[settings]\nscale = 1"));
    assert!(invalid("id = 5"));
    assert!(invalid("id = \"five\"\n[settings]\nscale = 1"));
    assert!(invalid("id = 5\n[settings]\nscale = \"big\""));
    assert!(invalid("id = 5\nid = 6\n[settings]\nscale = 1"));
    assert!(invalid(""));
}

#[test]
fn ids_keep_their_bits_as_signed_integers() {
    assert_eq!(integer_of_id(AssetId(0)), 0);
    assert_eq!(integer_of_id(AssetId(5)), 5);
    assert_eq!(integer_of_id(AssetId(i64::MAX as u64)), i64::MAX);
    assert_eq!(integer_of_id(AssetId(i64::MAX as u64 + 1)), i64::MIN);
    assert_eq!(integer_of_id(AssetId(u64::MAX)), -1);
    assert_eq!(id_of_integer(-1), AssetId(u64::MAX));
    assert_eq!(id_of_integer(i64::MIN), AssetId(1 << 63));
    assert_eq!(id_of_integer(7), AssetId(7));
    assert!(metadata_of_fields::<Plain>(None, Some(Plain { scale: 1 })).is_err());
    assert!(metadata_of_fields::<Plain>(Some(AssetId(1)), None).is_err());
    assert!(metadata_of_fields(Some(AssetId(1)), Some(Plain { scale: 1 })).is_ok());
}

#[test]
fn metadata_is_loaded_from_and_saved_to_the_sidecar() {
    let (mut fs, _) = project(false);
    assert!(fs.load_metadata::<Plain>("Assets/a.txt").is_err());
    let metadata = AssetMetadata::new(AssetId(77), Plain { scale: 4 });
    let bytes = fs.save_metadata("Assets/a.txt", &metadata).unwrap();
    assert_eq!(fs.read("Assets/a.txt.meta").unwrap(), bytes);
    let loaded = fs.load_metadata::<Plain>("Assets/a.txt").unwrap();
    assert_eq!(loaded.id(), AssetId(77));
    assert_eq!(loaded.settings().scale, 4);
    fs.write("Assets/b.txt.meta", b"garbage [").unwrap();
    assert!(matches!(fs.load_metadata::<Plain>("Assets/b.txt"), Err(AssetIoError::InvalidData(_))));
}

#[test]
fn settings_of_the_sidecar_are_kept_over_an_import() {
    let (mut fs, mut db) = project(true);
    fs.write("Assets/a.txt", b"hello").unwrap();
    fs.save_metadata("Assets/a.txt", &AssetMetadata::new(AssetId(31), Plain { scale: 8 })).unwrap();
    let report = full_import(&paths(&["Assets/a.txt"]), &mut fs, &mut db);
    assert_eq!(report.saved[0].id, AssetId(31));
    assert_eq!(fs.load_artifact(&AssetId(31)).unwrap().asset(), b"hello\nscale:8");
    assert_eq!(sidecar_id(&fs, "Assets/a.txt"), AssetId(31));
}
