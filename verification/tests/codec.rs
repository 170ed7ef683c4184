use asset_pipeline::asset::artifact::{Artifact, ArtifactMeta};
use asset_pipeline::asset::bytes::IntoBytes;
use asset_pipeline::asset::io::{
    artifact_of_read, header_length, header_of_read, library_of_read, read_header, AssetFileSystem,
    AssetIoError, FileReader, FileSystem,
};
use asset_pipeline::asset::memory::MemoryFileSystem;
use asset_pipeline::asset::config::AssetConfig;
use asset_pipeline::asset::set::IdSet;
use asset_pipeline::asset::{AssetId, AssetType};

fn ids(values: &[u64]) -> IdSet {
    let mut set = IdSet::new();
    for value in values {
        set.insert(AssetId(*value));
    }
    set
}

fn sample_meta() -> ArtifactMeta {
    ArtifactMeta::new(AssetId(1), AssetType(2), 0x0a0b0c0d, 5, ids(&[7, 9]))
}

fn sample_meta_bytes() -> Vec<u8> {
    let mut bytes = vec![];
    bytes.extend([1u8, 0, 0, 0, 0, 0, 0, 0]);
    bytes.extend([2u8, 0, 0, 0, 0, 0, 0, 0]);
    bytes.extend([0x0du8, 0x0c, 0x0b, 0x0a]);
    bytes.extend([5u8, 0, 0, 0, 0, 0, 0, 0]);
    bytes.extend([2u8, 0, 0, 0, 0, 0, 0, 0]);
    bytes.extend([8u8, 0, 0, 0, 0, 0, 0, 0]);
    bytes.extend([7u8, 0, 0, 0, 0, 0, 0, 0]);
    bytes.extend([8u8, 0, 0, 0, 0, 0, 0, 0]);
    bytes.extend([9u8, 0, 0, 0, 0, 0, 0, 0]);
    bytes
}

#[test]
fn u64_is_eight_little_endian_bytes() {
    assert_eq!(0x0102030405060708u64.into_bytes(), vec![8, 7, 6, 5, 4, 3, 2, 1]);
    assert_eq!(u64::from_bytes(&[8, 7, 6, 5, 4, 3, 2, 1]), Some(0x0102030405060708u64));
}

#[test]
fn u64_round_trips_at_the_edges() {
    for value in [0u64, 1, 255, 256, u64::MAX - 1, u64::MAX] {
        assert_eq!(u64::from_bytes(&value.into_bytes()), Some(value));
    }
}

#[test]
fn u64_of_another_length_is_refused() {
    assert_eq!(u64::from_bytes(&[1, 2, 3]), None);
    assert_eq!(u64::from_bytes(&[0; 9]), None);
    assert_eq!(u64::from_bytes(&[]), None);
}

#[test]
fn usize_is_written_as_u64() {
    assert_eq!(258usize.into_bytes(), vec![2, 1, 0, 0, 0, 0, 0, 0]);
    assert_eq!(usize::from_bytes(&[2, 1, 0, 0, 0, 0, 0, 0]), Some(258usize));
    assert_eq!(usize::from_bytes(&[2, 1]), None);
}

#[test]
fn asset_id_is_written_as_its_number() {
    assert_eq!(AssetId(3).into_bytes(), vec![3, 0, 0, 0, 0, 0, 0, 0]);
    assert_eq!(AssetId::from_bytes(&[3, 0, 0, 0, 0, 0, 0, 0]), Some(AssetId(3)));
    assert_eq!(AssetId::from_bytes(&[3]), None);
}

#[test]
fn empty_set_is_a_zero_count() {
    assert_eq!(IdSet::new().into_bytes(), vec![0u8; 8]);
    let decoded = IdSet::from_bytes(&[0u8; 8]).unwrap();
    assert!(decoded.is_empty());
}

#[test]
fn set_is_count_then_length_prefixed_items() {
    let bytes = ids(&[7, 9]).into_bytes();
    let mut expected = vec![2u8, 0, 0, 0, 0, 0, 0, 0];
    expected.extend([8u8, 0, 0, 0, 0, 0, 0, 0, 7, 0, 0, 0, 0, 0, 0, 0]);
    expected.extend([8u8, 0, 0, 0, 0, 0, 0, 0, 9, 0, 0, 0, 0, 0, 0, 0]);
    assert_eq!(bytes, expected);
}

#[test]
fn set_round_trips_in_order() {
    let set = ids(&[5, 1, u64::MAX, 0]);
    let decoded = IdSet::from_bytes(&set.into_bytes()).unwrap();
    assert_eq!(decoded.to_vec(), vec![AssetId(5), AssetId(1), AssetId(u64::MAX), AssetId(0)]);
}

#[test]
fn truncated_set_is_refused() {
    let bytes = ids(&[7, 9]).into_bytes();
    assert!(IdSet::from_bytes(&bytes[..bytes.len() - 1]).is_none());
    assert!(IdSet::from_bytes(&bytes[..8]).is_none());
    assert!(IdSet::from_bytes(&bytes[..7]).is_none());
    assert!(IdSet::from_bytes(&[]).is_none());
}

#[test]
fn set_with_a_wrong_item_length_is_refused() {
    let mut bytes = ids(&[7]).into_bytes();
    bytes[8] = 4;
    assert!(IdSet::from_bytes(&bytes).is_none());
}

#[test]
fn set_with_a_repeated_item_is_read_once() {
    let mut bytes = vec![2u8, 0, 0, 0, 0, 0, 0, 0];
    bytes.extend([8u8, 0, 0, 0, 0, 0, 0, 0, 7, 0, 0, 0, 0, 0, 0, 0]);
    bytes.extend([8u8, 0, 0, 0, 0, 0, 0, 0, 7, 0, 0, 0, 0, 0, 0, 0]);
    let decoded = IdSet::from_bytes(&bytes).unwrap();
    assert_eq!(decoded.to_vec(), vec![AssetId(7)]);
}

#[test]
fn bytes_after_a_set_are_not_read() {
    let mut bytes = ids(&[7]).into_bytes();
    bytes.extend([1, 2, 3]);
    assert_eq!(IdSet::from_bytes(&bytes).unwrap().to_vec(), vec![AssetId(7)]);
}

#[test]
fn meta_has_the_documented_layout() {
    assert_eq!(sample_meta().into_bytes(), sample_meta_bytes());
}

#[test]
fn meta_round_trips() {
    let decoded = ArtifactMeta::from_bytes(&sample_meta_bytes()).unwrap();
    assert_eq!(decoded.id(), AssetId(1));
    assert_eq!(decoded.ty(), AssetType(2));
    assert_eq!(decoded.checksum(), 0x0a0b0c0d);
    assert_eq!(decoded.modified(), 5);
    assert_eq!(decoded.dependencies().to_vec(), vec![AssetId(7), AssetId(9)]);
    assert_eq!(decoded.into_bytes(), sample_meta_bytes());
}

#[test]
fn truncated_meta_is_refused() {
    let bytes = sample_meta_bytes();
    assert!(ArtifactMeta::from_bytes(&bytes[..27]).is_none());
    assert!(ArtifactMeta::from_bytes(&bytes[..35]).is_none());
    assert!(ArtifactMeta::from_bytes(&bytes[..bytes.len() - 1]).is_none());
    assert!(ArtifactMeta::from_bytes(&[]).is_none());
}

#[test]
fn artifact_is_length_header_payload() {
    let artifact = Artifact::new(sample_meta(), vec![0xaa, 0xbb]);
    let mut expected = vec![68u8, 0, 0, 0, 0, 0, 0, 0];
    expected.extend(sample_meta_bytes());
    expected.extend([0xaa, 0xbb]);
    assert_eq!(artifact.into_bytes(), expected);
}

#[test]
fn artifact_round_trips_bytewise() {
    let bytes = Artifact::new(sample_meta(), vec![1, 2, 3, 4]).into_bytes();
    let decoded = Artifact::from_bytes(&bytes).unwrap();
    assert_eq!(decoded.asset(), &[1, 2, 3, 4]);
    assert_eq!(decoded.meta().id(), AssetId(1));
    assert_eq!(decoded.into_bytes(), bytes);
}

#[test]
fn artifact_with_empty_payload_round_trips() {
    let bytes = Artifact::new(ArtifactMeta::default(), vec![]).into_bytes();
    assert_eq!(bytes.len(), 8 + 36);
    let decoded = Artifact::from_bytes(&bytes).unwrap();
    assert!(decoded.asset().is_empty());
    assert!(decoded.meta().dependencies().is_empty());
}

#[test]
fn artifact_with_a_length_beyond_the_file_is_refused() {
    let mut bytes = Artifact::new(sample_meta(), vec![1]).into_bytes();
    bytes[0] = 200;
    assert!(Artifact::from_bytes(&bytes).is_none());
    assert!(Artifact::read_meta(&bytes).is_none());
    assert!(Artifact::from_bytes(&[1, 2, 3]).is_none());
}

#[test]
fn header_is_read_without_the_payload() {
    let bytes = Artifact::new(sample_meta(), vec![9; 1000]).into_bytes();
    let meta = Artifact::read_meta(&bytes).unwrap();
    assert_eq!(meta.into_bytes(), sample_meta_bytes());
    let front = Artifact::read_meta(&bytes[..8 + 68]).unwrap();
    assert_eq!(front.into_bytes(), sample_meta_bytes());
}

#[test]
fn header_from_a_handle_leaves_the_payload_unread() {
    let mut store = MemoryFileSystem::new();
    let bytes = Artifact::new(sample_meta(), vec![9; 10000]).into_bytes();
    store.write("artifact", &bytes).unwrap();
    let mut handle: FileReader<_> = store.reader("artifact").unwrap();
    let meta = read_header(&mut handle).unwrap();
    assert_eq!(meta.into_bytes(), sample_meta_bytes());
    let rest = handle.read_to_end().unwrap();
    assert_eq!(rest, vec![9; 10000]);
}

#[test]
fn load_artifact_meta_agrees_with_load_artifact() {
    let mut fs = AssetFileSystem::new(AssetConfig::new("project"), MemoryFileSystem::new());
    let bytes = Artifact::new(sample_meta(), vec![4, 5, 6]).into_bytes();
    fs.write("project/.cache/artifacts/1", &bytes).unwrap();
    let meta = fs.load_artifact_meta(&AssetId(1)).unwrap();
    let artifact = fs.load_artifact(&AssetId(1)).unwrap();
    assert_eq!(meta.into_bytes(), artifact.meta().into_bytes());
    assert_eq!(artifact.asset(), &[4, 5, 6]);
}

#[test]
fn load_artifact_of_garbage_is_invalid_data() {
    let mut fs = AssetFileSystem::new(AssetConfig::new("project"), MemoryFileSystem::new());
    fs.write("project/.cache/artifacts/1", &[1, 2, 3]).unwrap();
    assert!(matches!(fs.load_artifact(&AssetId(1)), Err(AssetIoError::InvalidData(_))));
    assert!(matches!(fs.load_artifact(&AssetId(2)), Err(AssetIoError::NotFound(_))));
    assert!(fs.load_artifact_meta(&AssetId(1)).is_err());
}

#[test]
fn removed_dependencies_are_those_that_the_new_header_lacks() {
    let old = ArtifactMeta::new(AssetId(1), AssetType(2), 0, 0, ids(&[1, 2, 3, 4]));
    let new = ArtifactMeta::new(AssetId(1), AssetType(2), 0, 0, ids(&[4, 2, 8]));
    assert_eq!(old.removed_dependencies(&new).to_vec(), vec![AssetId(1), AssetId(3)]);
    assert!(new.removed_dependencies(&new).is_empty());
}

#[test]
fn set_dependencies_replaces_the_set() {
    let mut meta = sample_meta();
    meta.set_dependencies(ids(&[3]));
    assert_eq!(meta.dependencies().to_vec(), vec![AssetId(3)]);
    assert_eq!(meta.id(), AssetId(1));
    assert!(meta.is_encodable());
}

#[test]
fn meta_mut_reaches_the_header() {
    let mut artifact = Artifact::new(sample_meta(), vec![1]);
    artifact.meta_mut().set_dependencies(IdSet::new());
    assert!(artifact.meta().dependencies().is_empty());
    let (meta, payload) = artifact.into_parts();
    assert_eq!(meta.id(), AssetId(1));
    assert_eq!(payload, vec![1]);
}

#[test]
fn results_of_reads_are_decoded_or_handed_on() {
    assert_eq!(header_length(Ok(vec![5, 1, 0, 0, 0, 0, 0, 0])), Ok(261));
    assert!(matches!(header_length(Ok(vec![5, 1])), Err(AssetIoError::InvalidData(_))));
    assert_eq!(header_length(Err(AssetIoError::Http(404))), Err(AssetIoError::Http(404)));
    assert_eq!(header_of_read(Ok(sample_meta_bytes())).unwrap().id(), AssetId(1));
    assert!(matches!(header_of_read(Ok(vec![1, 2, 3])), Err(AssetIoError::InvalidData(_))));
    assert!(matches!(header_of_read(Err(AssetIoError::Http(500))), Err(AssetIoError::Http(500))));
    let bytes = Artifact::new(sample_meta(), vec![1]).into_bytes();
    assert_eq!(artifact_of_read(Ok(bytes)).unwrap().asset(), &[1]);
    assert!(matches!(artifact_of_read(Ok(vec![])), Err(AssetIoError::InvalidData(_))));
    assert!(matches!(
        artifact_of_read(Err(AssetIoError::Io("disk".to_string()))),
        Err(AssetIoError::Io(_))
    ));
    assert_eq!(library_of_read(Ok(vec![0; 8])).unwrap().len(), 0);
    assert!(matches!(library_of_read(Ok(vec![0; 7])), Err(AssetIoError::InvalidData(_))));
    assert!(matches!(
        library_of_read(Err(AssetIoError::NotFound("x".to_string()))),
        Err(AssetIoError::NotFound(_))
    ));
}

#[test]
fn a_file_shorter_than_its_header_is_an_io_failure() {
    let mut fs = AssetFileSystem::new(AssetConfig::new("project"), MemoryFileSystem::new());
    let bytes = Artifact::new(sample_meta(), vec![]).into_bytes();
    fs.write("project/.cache/artifacts/1", &bytes[..40]).unwrap();
    assert!(matches!(fs.load_artifact_meta(&AssetId(1)), Err(AssetIoError::Io(_))));
    assert!(matches!(fs.load_artifact(&AssetId(1)), Err(AssetIoError::InvalidData(_))));
}
