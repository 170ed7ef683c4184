use asset_pipeline::asset::config::AssetConfig;
use asset_pipeline::asset::io::{needed, AssetFileSystem, AssetIoError, FileSystem};
use asset_pipeline::asset::memory::MemoryFileSystem;
use asset_pipeline::asset::path::{find_last, join, same_text, PathExt};
use asset_pipeline::asset::{decimal_string, AssetId, AssetType, SettingsType};

#[test]
fn extension_is_what_follows_the_last_dot() {
    assert_eq!("Assets/a.txt".ext(), Some("txt".to_string()));
    assert_eq!("a.tar.gz".ext(), Some("gz".to_string()));
    assert_eq!("dir.d/file".ext(), None);
    assert_eq!("dir.d/file.png".ext(), Some("png".to_string()));
    assert_eq!("file.".ext(), Some("".to_string()));
}

#[test]
fn some_names_have_no_extension() {
    assert_eq!("Assets/readme".ext(), None);
    assert_eq!(".hidden".ext(), None);
    assert_eq!("dir/.hidden".ext(), None);
    assert_eq!("..".ext(), None);
    assert_eq!("dir/..".ext(), None);
    assert_eq!("".ext(), None);
    assert_eq!("dir/".ext(), None);
    assert_eq!("a/b.txt/".ext(), Some("txt".to_string()));
    assert_eq!("a/b.txt//".ext(), Some("txt".to_string()));
    assert_eq!("a/b.txt/.".ext(), Some("txt".to_string()));
    assert_eq!("a/b.txt/.//".ext(), Some("txt".to_string()));
    assert_eq!("a/b.txt/..".ext(), None);
    assert_eq!("/".ext(), None);
    assert_eq!(".".ext(), None);
    assert_eq!("./".ext(), None);
    assert_eq!("a.b/./c".ext(), None);
    assert_eq!(".hidden.txt".ext(), Some("txt".to_string()));
}

#[test]
fn append_extension_adds_a_dot_and_the_extension() {
    assert_eq!("Assets/a.txt".append_extension("meta"), "Assets/a.txt.meta");
    assert_eq!("a".append_extension(""), "a.");
    assert_eq!(AssetConfig::metadata("Assets/a.txt"), "Assets/a.txt.meta");
}

#[test]
fn join_puts_one_slash_between() {
    assert_eq!(join("root", "Assets"), "root/Assets");
    assert_eq!(join("root/", "Assets"), "root/Assets");
    assert_eq!(join("", "Assets"), "Assets");
    assert_eq!(join("root", "/abs"), "/abs");
    assert_eq!(join("root", ""), "root/");
}

#[test]
fn find_last_and_same_text() {
    assert_eq!(find_last("a/b/c", '/'), Some(3));
    assert_eq!(find_last("abc", '/'), None);
    assert_eq!(find_last("", '/'), None);
    assert!(same_text("ab", "ab"));
    assert!(!same_text("ab", "abc"));
}

#[test]
fn config_places_everything_below_the_root() {
    let config = AssetConfig::new("project");
    assert_eq!(config.root(), "project");
    assert_eq!(config.assets(), "project/Assets");
    assert_eq!(config.preferences(), "project/Preferences");
    assert_eq!(config.cache(), "project/.cache");
    assert_eq!(config.temp(), "project/.temp");
    assert_eq!(config.library(), "project/.cache/assets.lib");
    assert_eq!(config.artifacts(), "project/.cache/artifacts");
    assert_eq!(config.artifact(&AssetId(42)), "project/.cache/artifacts/42");
    assert_eq!(config.dependents(&AssetId(7)), "project/.temp/dependents/7");
}

#[test]
fn config_with_an_empty_root_is_relative() {
    let config = AssetConfig::new("");
    assert_eq!(config.assets(), "Assets");
    assert_eq!(config.artifact(&AssetId(0)), ".cache/artifacts/0");
}

#[test]
fn ids_are_named_by_their_decimal_numeral() {
    assert_eq!(AssetId(0).to_string(), "0");
    assert_eq!(AssetId(9).to_string(), "9");
    assert_eq!(AssetId(10).to_string(), "10");
    assert_eq!(AssetId(1234567890).to_string(), "1234567890");
    assert_eq!(AssetId(u64::MAX).to_string(), "18446744073709551615");
    assert_eq!(decimal_string(100), "100");
}

#[test]
fn fresh_ids_differ() {
    let a = AssetId::gen();
    let b = AssetId::gen();
    let c = AssetId::gen();
    assert!(a != b || b != c);
    assert_eq!(AssetId::default(), AssetId(0));
}

#[test]
fn dynamic_tags_hold_their_value() {
    assert_eq!(AssetType::dynamic(5), AssetType(5));
    assert_eq!(SettingsType::dynamic(6), SettingsType(6));
    assert_eq!(AssetType::default(), AssetType(0));
}

#[test]
fn memory_store_reads_what_was_written_last() {
    let mut store = MemoryFileSystem::new();
    assert!(!store.is_file("a"));
    assert!(matches!(store.read("a"), Err(AssetIoError::NotFound(_))));
    store.write("a", b"one").unwrap();
    store.write("b", b"two").unwrap();
    store.write("a", b"three").unwrap();
    assert_eq!(store.read("a").unwrap(), b"three");
    assert_eq!(store.read("b").unwrap(), b"two");
    assert_eq!(store.read_to_string("a").unwrap(), "three");
    assert!(store.is_file("a"));
}

#[test]
fn memory_store_read_to_string_wants_utf8() {
    let mut store = MemoryFileSystem::new();
    store.write("a", &[0xff, 0xfe]).unwrap();
    assert!(matches!(store.read_to_string("a"), Err(AssetIoError::InvalidData(_))));
}

#[test]
fn memory_store_read_exact_takes_the_front() {
    let mut store = MemoryFileSystem::new();
    store.write("a", &[1, 2, 3, 4, 5]).unwrap();
    let mut buffer = [0u8; 3];
    store.read_exact("a", &mut buffer).unwrap();
    assert_eq!(buffer, [1, 2, 3]);
    let mut long = [0u8; 6];
    assert!(store.read_exact("a", &mut long).is_err());
    assert!(store.read_exact("b", &mut buffer).is_err());
}

#[test]
fn memory_store_reader_reads_in_pieces() {
    let mut store = MemoryFileSystem::new();
    store.write("a", &[1, 2, 3, 4, 5]).unwrap();
    let mut handle = store.reader("a").unwrap();
    let mut two = [0u8; 2];
    assert_eq!(handle.read(&mut two).unwrap(), 2);
    assert_eq!(two, [1, 2]);
    handle.read_exact(&mut two).unwrap();
    assert_eq!(two, [3, 4]);
    assert!(handle.read_exact(&mut two).is_err());
    let mut handle = store.reader("a").unwrap();
    assert_eq!(handle.read_vec(4).unwrap(), vec![1, 2, 3, 4]);
    assert_eq!(handle.read_to_end().unwrap(), vec![5]);
    assert_eq!(handle.read(&mut two).unwrap(), 0);
    assert!(handle.read_vec(1).is_err());
}

#[test]
fn memory_store_removes_files_and_directories() {
    let mut store = MemoryFileSystem::new();
    store.write("dir/a", b"1").unwrap();
    store.write("dir/sub/b", b"2").unwrap();
    store.write("dir2/c", b"3").unwrap();
    store.write("dir", b"4").unwrap();
    assert_eq!(store.remove("dir").unwrap(), Vec::<String>::new());
    assert!(!store.is_file("dir"));
    assert!(store.is_file("dir/a"));
    let mut removed = store.remove("dir").unwrap();
    removed.sort();
    assert_eq!(removed, vec!["dir/a".to_string(), "dir/sub/b".to_string()]);
    assert!(!store.is_file("dir/a"));
    assert!(!store.is_file("dir/sub/b"));
    assert!(store.is_file("dir2/c"));
    assert!(matches!(store.remove("dir"), Err(AssetIoError::NotFound(_))));
    assert!(matches!(store.remove("nothing"), Err(AssetIoError::NotFound(_))));
}

#[test]
fn memory_store_renames_and_lists() {
    let mut store = MemoryFileSystem::new();
    store.write("dir/a", b"1").unwrap();
    store.write("dir/sub/b", b"2").unwrap();
    store.write("other", b"3").unwrap();
    store.rename("dir/a", "dir/z").unwrap();
    assert!(!store.is_file("dir/a"));
    assert_eq!(store.read("dir/z").unwrap(), b"1");
    assert!(store.rename("dir/a", "x").is_err());
    let mut all = store.read_directory("dir", true).unwrap();
    all.sort();
    assert_eq!(all, vec!["dir/sub/b".to_string(), "dir/z".to_string()]);
    assert_eq!(store.read_directory("dir", false).unwrap(), vec!["dir/z".to_string()]);
    assert!(store.read_directory("none", true).unwrap().is_empty());
    store.create_dir("made").unwrap();
    assert!(!store.is_file("made"));
}

#[test]
fn memory_store_stamps_writes_with_its_time() {
    let mut store = MemoryFileSystem::new();
    store.set_time(100);
    store.write("a", b"1").unwrap();
    store.set_time(200);
    store.write("b", b"2").unwrap();
    assert_eq!(store.modified("a").unwrap(), 100);
    assert_eq!(store.modified("b").unwrap(), 200);
    assert!(store.modified("c").is_err());
}

#[test]
fn facade_hands_the_store_through() {
    let mut fs = AssetFileSystem::new(AssetConfig::new("p"), MemoryFileSystem::new());
    fs.write("p/Assets/a", b"abc").unwrap();
    assert!(fs.is_file("p/Assets/a"));
    assert_eq!(fs.read("p/Assets/a").unwrap(), b"abc");
    assert_eq!(fs.read_to_string("p/Assets/a").unwrap(), "abc");
    let mut buffer = [0u8; 2];
    fs.read_exact("p/Assets/a", &mut buffer).unwrap();
    assert_eq!(buffer, [b'a', b'b']);
    assert_eq!(fs.reader("p/Assets/a").unwrap().read_to_end().unwrap(), b"abc");
    fs.rename("p/Assets/a", "p/Assets/b").unwrap();
    assert_eq!(fs.read_directory("p/Assets", false).unwrap(), vec!["p/Assets/b".to_string()]);
    assert_eq!(fs.modified_secs("p/Assets/b").unwrap(), 0);
    assert_eq!(fs.remove("p/Assets/b").unwrap(), Vec::<String>::new());
    assert!(!fs.system().is_file("p/Assets/b"));
    assert_eq!(fs.config().root(), "p");
}

#[test]
fn checksum_is_the_crc32_of_source_then_sidecar() {
    let sum = AssetFileSystem::<MemoryFileSystem>::calculate_checksum(b"hello", b" world");
    assert_eq!(sum, crc32fast::hash(b"hello world"));
    assert_eq!(sum, 0x0d4a1185);
    let empty = AssetFileSystem::<MemoryFileSystem>::calculate_checksum(b"", b"");
    assert_eq!(empty, 0);
}

#[test]
fn checksum_changes_with_one_byte_of_either_part() {
    let sum = AssetFileSystem::<MemoryFileSystem>::calculate_checksum(b"hello", b"id = 1");
    let source = AssetFileSystem::<MemoryFileSystem>::calculate_checksum(b"hellp", b"id = 1");
    let sidecar = AssetFileSystem::<MemoryFileSystem>::calculate_checksum(b"hello", b"id = 2");
    assert_ne!(sum, source);
    assert_ne!(sum, sidecar);
}

#[test]
fn errors_compare_by_kind_and_text() {
    assert_eq!(AssetIoError::NotFound("a".to_string()), AssetIoError::NotFound("a".to_string()));
    assert_ne!(AssetIoError::NotFound("a".to_string()), AssetIoError::Io("a".to_string()));
    assert_ne!(AssetIoError::Http(404), AssetIoError::Http(500));
    assert_eq!(AssetIoError::Http(404).to_string(), "HTTP error: 404");
    assert_eq!(AssetIoError::NotFound("a".to_string()).to_string(), "Asset not found: a");
    assert_eq!(AssetIoError::Io("disk".to_string()).clone().to_string(), "IO error: disk");
    assert_eq!(AssetIoError::InvalidData("x".to_string()).to_string(), "Invalid data: x");
}

#[test]
fn a_read_of_no_bytes_is_an_early_end() {
    assert_eq!(needed(Ok(3)), Ok(3));
    assert!(matches!(needed(Ok(0)), Err(AssetIoError::Io(_))));
    assert_eq!(needed(Err(AssetIoError::Http(500))), Err(AssetIoError::Http(500)));
}

#[test]
fn nothing_is_read_for_an_empty_buffer() {
    let mut store = MemoryFileSystem::new();
    store.write("a", &[]).unwrap();
    let mut handle = store.reader("a").unwrap();
    let mut none = [0u8; 0];
    handle.read_exact(&mut none).unwrap();
    assert_eq!(handle.read_vec(0).unwrap(), Vec::<u8>::new());
    assert_eq!(handle.read_to_end().unwrap(), Vec::<u8>::new());
    store.read_exact("a", &mut none).unwrap();
}

#[test]
fn a_failed_read_exact_keeps_what_was_read() {
    let mut store = MemoryFileSystem::new();
    store.write("a", &[1, 2, 3]).unwrap();
    let mut handle = store.reader("a").unwrap();
    let mut five = [9u8; 5];
    assert!(matches!(handle.read_exact(&mut five), Err(AssetIoError::Io(_))));
    assert_eq!(&five[..3], &[1, 2, 3]);
    assert_eq!(handle.read_to_end().unwrap(), Vec::<u8>::new());
    let mut other = [9u8; 5];
    assert!(matches!(store.read_exact("a", &mut other), Err(AssetIoError::Io(_))));
    assert_eq!(other, [9u8; 5]);
    assert!(matches!(store.read_exact("b", &mut other), Err(AssetIoError::NotFound(_))));
}
