use asset_pipeline::asset::bytes::IntoBytes;
use asset_pipeline::asset::config::AssetConfig;
use asset_pipeline::asset::database::library::AssetLibrary;
use asset_pipeline::asset::io::{AssetFileSystem, AssetIoError, FileSystem};
use asset_pipeline::asset::memory::MemoryFileSystem;
use asset_pipeline::asset::set::IdSet;
use asset_pipeline::asset::AssetId;
use asset_pipeline::dense::{DenseMap, DenseSet};

fn ids(values: &[u64]) -> IdSet {
    let mut set = IdSet::new();
    for value in values {
        set.insert(AssetId(*value));
    }
    set
}

#[test]
fn id_set_keeps_each_id_once_in_order() {
    let mut set = IdSet::new();
    assert!(set.insert(AssetId(3)));
    assert!(set.insert(AssetId(1)));
    assert!(!set.insert(AssetId(3)));
    assert_eq!(set.len(), 2);
    assert_eq!(set.to_vec(), vec![AssetId(3), AssetId(1)]);
    assert!(set.contains(AssetId(1)));
    assert!(!set.contains(AssetId(2)));
    assert_eq!(set.get(1), AssetId(1));
}

#[test]
fn id_set_remove_takes_one_id_out() {
    let mut set = ids(&[1, 2, 3]);
    assert!(set.remove(AssetId(2)));
    assert!(!set.remove(AssetId(2)));
    assert_eq!(set.to_vec(), vec![AssetId(1), AssetId(3)]);
}

#[test]
fn id_set_difference_and_union() {
    let a = ids(&[1, 2, 3]);
    let b = ids(&[3, 4, 1]);
    assert_eq!(a.difference(&b).to_vec(), vec![AssetId(2)]);
    let mut all = a.clone();
    all.extend(&b);
    assert_eq!(all.to_vec(), vec![AssetId(1), AssetId(2), AssetId(3), AssetId(4)]);
    assert!(IdSet::new().difference(&a).is_empty());
    assert_eq!(all.distinct().to_vec(), all.to_vec());
}

#[test]
fn dense_set_gives_positions() {
    let mut set: DenseSet<u64> = DenseSet::new();
    assert!(set.is_empty());
    assert_eq!(set.insert(10), 0);
    assert_eq!(set.insert(20), 1);
    assert_eq!(set.insert(10), 0);
    assert_eq!(set.len(), 2);
    assert_eq!(set.index(&20), Some(1));
    assert_eq!(set.index(&30), None);
    assert!(set.contains(&10));
    assert_eq!(set.iter(), &[10, 20]);
}

#[test]
fn dense_set_remove_keeps_the_order() {
    let mut set: DenseSet<u64> = DenseSet::new();
    for key in [1, 2, 3, 4] {
        set.insert(key);
    }
    assert_eq!(set.remove(&2), Some(2));
    assert_eq!(set.remove(&2), None);
    assert_eq!(set.iter(), &[1, 3, 4]);
    assert_eq!(set.index(&4), Some(2));
    assert_eq!(set.remove(&4), Some(4));
    assert_eq!(set.iter(), &[1, 3]);
}

#[test]
fn dense_set_swap_remove_moves_the_last_key() {
    let mut set: DenseSet<u64> = DenseSet::new();
    for key in [1, 2, 3, 4] {
        set.insert(key);
    }
    assert_eq!(set.swap_remove(&1), Some(1));
    assert_eq!(set.iter(), &[4, 2, 3]);
    assert_eq!(set.index(&4), Some(0));
    assert_eq!(set.swap_remove(&3), Some(3));
    assert_eq!(set.iter(), &[4, 2]);
    assert_eq!(set.swap_remove(&9), None);
}

#[test]
fn dense_set_retain_drain_and_clear() {
    let mut set: DenseSet<u64> = DenseSet::new();
    for key in [1, 2, 3, 4, 5, 6] {
        set.insert(key);
    }
    set.retain(|key| key % 2 == 0);
    assert_eq!(set.iter(), &[2, 4, 6]);
    assert_eq!(set.index(&6), Some(2));
    assert_eq!(set.drain(), vec![2, 4, 6]);
    assert!(set.is_empty());
    assert!(!set.contains(&2));
    set.insert(7);
    set.clear();
    assert_eq!(set.len(), 0);
    assert_eq!(set.index(&7), None);
}

#[test]
fn dense_map_insert_replaces_in_place() {
    let mut map: DenseMap<u64, &str> = DenseMap::new();
    map.insert(1, "a");
    map.insert(2, "b");
    map.insert(1, "c");
    assert_eq!(map.len(), 2);
    assert_eq!(map.get(&1), Some(&"c"));
    assert_eq!(map.get(&3), None);
    assert_eq!(map.keys(), &[1, 2]);
    assert_eq!(map.values(), &["c", "b"]);
    assert!(map.contains_key(&2));
}

#[test]
fn dense_map_get_mut_changes_the_value() {
    let mut map: DenseMap<u64, u32> = DenseMap::new();
    map.insert(1, 10);
    if let Some(value) = map.get_mut(&1) {
        *value += 5;
    }
    assert_eq!(map.get(&1), Some(&15));
    assert!(map.get_mut(&2).is_none());
}

#[test]
fn dense_map_remove_keeps_the_order() {
    let mut map: DenseMap<u64, u32> = DenseMap::new();
    for key in [1, 2, 3, 4] {
        map.insert(key, (key * 10) as u32);
    }
    assert_eq!(map.remove(&2), Some(20));
    assert_eq!(map.remove(&2), None);
    assert_eq!(map.keys(), &[1, 3, 4]);
    assert_eq!(map.values(), &[10, 30, 40]);
    assert_eq!(map.get(&4), Some(&40));
    assert_eq!(map.remove(&4), Some(40));
    assert_eq!(map.keys(), &[1, 3]);
}

#[test]
fn dense_map_swap_remove_moves_the_last_entry() {
    let mut map: DenseMap<u64, u32> = DenseMap::new();
    for key in [1, 2, 3, 4] {
        map.insert(key, (key * 10) as u32);
    }
    assert_eq!(map.swap_remove(&1), Some(10));
    assert_eq!(map.keys(), &[4, 2, 3]);
    assert_eq!(map.values(), &[40, 20, 30]);
    assert_eq!(map.get(&4), Some(&40));
    assert_eq!(map.swap_remove(&3), Some(30));
    assert_eq!(map.swap_remove(&3), None);
    assert_eq!(map.pop(), Some((2, 20)));
    assert_eq!(map.pop(), Some((4, 40)));
    assert_eq!(map.pop(), None);
}

#[test]
fn dense_map_retain_keeps_what_the_test_accepts() {
    let mut map: DenseMap<u64, u32> = DenseMap::new();
    for key in [1, 2, 3, 4, 5] {
        map.insert(key, (key * 10) as u32);
    }
    map.retain(|key, value| *key != 1 && *value != 40);
    assert_eq!(map.keys(), &[2, 3, 5]);
    assert_eq!(map.values(), &[20, 30, 50]);
    assert_eq!(map.get(&5), Some(&50));
    assert_eq!(map.get(&4), None);
}

#[test]
fn dense_map_iter_and_clear() {
    let mut map: DenseMap<u64, u32> = DenseMap::new();
    map.insert(8, 1);
    map.insert(9, 2);
    let pairs = map.iter();
    assert_eq!(pairs, vec![(8, &1), (9, &2)]);
    map.clear();
    assert_eq!(map.len(), 0);
    assert_eq!(map.get(&8), None);
}

#[test]
fn library_is_one_to_one() {
    let mut library = AssetLibrary::new();
    assert_eq!(library.insert(AssetId(1), "a".to_string()), (None, None));
    assert_eq!(library.insert(AssetId(2), "b".to_string()), (None, None));
    assert_eq!(library.id_path(&AssetId(1)), Some(&"a".to_string()));
    assert_eq!(library.path_id("b"), Some(&AssetId(2)));
    assert_eq!(library.path_id("c"), None);
    // The path `a` gets a new id: the old id leaves the index.
    assert_eq!(library.insert(AssetId(3), "a".to_string()), (Some(AssetId(1)), None));
    assert_eq!(library.id_path(&AssetId(1)), None);
    assert_eq!(library.path_id("a"), Some(&AssetId(3)));
    // The id 2 moves to another path: the old path leaves the index.
    assert_eq!(library.insert(AssetId(2), "c".to_string()), (None, Some("b".to_string())));
    assert_eq!(library.path_id("b"), None);
    assert_eq!(library.id_path(&AssetId(2)), Some(&"c".to_string()));
    assert_eq!(library.len(), 2);
    // An entry that takes an id and a path of two entries replaces both.
    assert_eq!(
        library.insert(AssetId(3), "c".to_string()),
        (Some(AssetId(2)), Some("a".to_string()))
    );
    assert_eq!(library.len(), 1);
}

fn sample_library() -> AssetLibrary {
    let mut library = AssetLibrary::new();
    library.insert(AssetId(1), "a".to_string());
    library.insert(AssetId(258), "Assets/\u{e9}.txt".to_string());
    library
}

#[test]
fn library_has_a_count_and_length_prefixed_entries() {
    let mut expected = vec![2u8, 0, 0, 0, 0, 0, 0, 0];
    expected.extend([9u8, 0, 0, 0, 0, 0, 0, 0, 1, 0, 0, 0, 0, 0, 0, 0, b'a']);
    expected.extend([21u8, 0, 0, 0, 0, 0, 0, 0, 2, 1, 0, 0, 0, 0, 0, 0]);
    expected.extend("Assets/\u{e9}.txt".as_bytes());
    assert_eq!(sample_library().into_bytes(), expected);
    assert_eq!(AssetLibrary::new().into_bytes(), vec![0u8; 8]);
    assert!(sample_library().is_encodable());
}

#[test]
fn library_round_trips() {
    let bytes = sample_library().into_bytes();
    let decoded = AssetLibrary::from_bytes(&bytes).unwrap();
    assert_eq!(decoded.len(), 2);
    assert_eq!(decoded.id_path(&AssetId(1)), Some(&"a".to_string()));
    assert_eq!(decoded.path_id("Assets/\u{e9}.txt"), Some(&AssetId(258)));
    assert_eq!(decoded.into_bytes(), bytes);
}

#[test]
fn damaged_library_is_refused() {
    let bytes = sample_library().into_bytes();
    assert!(AssetLibrary::from_bytes(&bytes[..bytes.len() - 1]).is_none());
    assert!(AssetLibrary::from_bytes(&bytes[..7]).is_none());
    assert!(AssetLibrary::from_bytes(&bytes[..20]).is_none());
    let mut short = bytes.clone();
    short[8] = 7;
    assert!(AssetLibrary::from_bytes(&short).is_none());
    let mut long = bytes.clone();
    long[8] = 200;
    assert!(AssetLibrary::from_bytes(&long).is_none());
    let mut text = bytes.clone();
    text[24] = 0xff;
    assert!(AssetLibrary::from_bytes(&text).is_none());
}

#[test]
fn library_with_a_repeated_entry_keeps_the_last() {
    let mut bytes = vec![2u8, 0, 0, 0, 0, 0, 0, 0];
    bytes.extend([9u8, 0, 0, 0, 0, 0, 0, 0, 1, 0, 0, 0, 0, 0, 0, 0, b'a']);
    bytes.extend([9u8, 0, 0, 0, 0, 0, 0, 0, 2, 0, 0, 0, 0, 0, 0, 0, b'a']);
    let decoded = AssetLibrary::from_bytes(&bytes).unwrap();
    assert_eq!(decoded.len(), 1);
    assert_eq!(decoded.path_id("a"), Some(&AssetId(2)));
}

#[test]
fn library_is_kept_in_its_file() {
    let mut fs = AssetFileSystem::new(AssetConfig::new("p"), MemoryFileSystem::new());
    assert!(matches!(fs.load_library(), Err(AssetIoError::NotFound(_))));
    fs.save_library(&sample_library()).unwrap();
    assert!(fs.is_file("p/.cache/assets.lib"));
    let loaded = fs.load_library().unwrap();
    assert_eq!(loaded.path_id("a"), Some(&AssetId(1)));
    fs.write("p/.cache/assets.lib", &[1, 2, 3]).unwrap();
    assert!(matches!(fs.load_library(), Err(AssetIoError::InvalidData(_))));
}
