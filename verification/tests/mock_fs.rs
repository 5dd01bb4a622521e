use smart_copy::mock_fs;
use smart_copy::async_fs::{DirEntry, FileType, Metadata, Timestamp};
use smart_copy::fs::FS;
use smart_copy::mock_fs::{
    empty_file, empty_folder, folder, Entries, ErrorKind, MockFs, MockFsError,
};
use smart_copy::mock_fs::LeafOp;
use smart_copy::paths::PathComponent;

fn sample_fs() -> MockFs {
    let mut m = Entries::new();
    m.insert("file.txt".to_string(), empty_file());
    m.insert(
        "folder".to_string(),
        folder({
            let mut m = Entries::new();
            m.insert("cat.png".to_string(), empty_file());
            m.insert("dog.png".to_string(), empty_file());
            m
        }),
    );
    MockFs::new(folder(m))
}

#[test]
fn mock_fs() {
    let mut vec = sample_fs()
        .read_dir_recursive("/")
        .into_iter()
        .map(|(path, result)| {
            let entry = result.unwrap();
            (path, entry.file_name(), entry.file_type().unwrap())
        })
        .collect::<Vec<_>>();
    vec.sort();
    assert_eq!(
        vec,
        vec![
            ("/".to_string(), "file.txt".to_string(), FileType::File),
            ("/".to_string(), "folder".to_string(), FileType::Dir),
            ("/folder".to_string(), "cat.png".to_string(), FileType::File),
            ("/folder".to_string(), "dog.png".to_string(), FileType::File),
        ]
    )
}

#[test]
fn recursive_listing_goes_depth_first() {
    let listing = sample_fs().read_dir_recursive("/");
    let names: Vec<(String, String)> = listing
        .iter()
        .map(|(dir, r)| (dir.clone(), r.as_ref().unwrap().file_name()))
        .collect();
    assert_eq!(
        names,
        vec![
            ("/".to_string(), "file.txt".to_string()),
            ("/".to_string(), "folder".to_string()),
            ("/folder".to_string(), "cat.png".to_string()),
            ("/folder".to_string(), "dog.png".to_string()),
        ]
    );
}

#[test]
fn recursive_listing_counts_every_node_once() {
    // One file and one folder at the top, two files below: four pairs.
    assert_eq!(sample_fs().read_dir_recursive("/").len(), 4);
    let mut m = Entries::new();
    m.insert("a".to_string(), empty_folder());
    m.insert("b".to_string(), folder({
        let mut m = Entries::new();
        m.insert("c".to_string(), folder({
            let mut m = Entries::new();
            m.insert("d".to_string(), mock_fs::file(vec![1, 2]));
            m
        }));
        m
    }));
    let fs = MockFs::new(folder(m));
    let listing = fs.read_dir_recursive("/");
    assert_eq!(listing.len(), 4);
    assert_eq!(listing[3].0, "/b/c");
}

#[test]
fn recursive_listing_of_a_subfolder() {
    let listing = sample_fs().read_dir_recursive("/folder");
    assert_eq!(listing.len(), 2);
    assert!(listing.iter().all(|(dir, _)| dir == "/folder"));
}

#[test]
fn recursive_listing_of_a_missing_folder_is_one_error() {
    let listing = sample_fs().read_dir_recursive("/nothing");
    assert_eq!(listing.len(), 1);
    assert_eq!(listing[0].0, "/nothing");
    assert_eq!(listing[0].1.as_ref().unwrap_err(), &MockFsError::EntryNotFound);
}

#[test]
fn read_dir_lists_the_entries_in_order() {
    let entries = sample_fs().read_dir("/").unwrap();
    let names: Vec<String> = entries.iter().map(|e| e.file_name()).collect();
    assert_eq!(names, vec!["file.txt".to_string(), "folder".to_string()]);
    assert_eq!(entries[0].file_type(), Ok(FileType::File));
    assert_eq!(entries[1].file_type(), Ok(FileType::Dir));
}

#[test]
fn metadata_gives_the_file_size_and_the_epoch() {
    let mut m = Entries::new();
    m.insert("a.bin".to_string(), mock_fs::file(vec![1, 2, 3, 4, 5]));
    m.insert("sub".to_string(), empty_folder());
    let fs = MockFs::new(folder(m));
    let entries = fs.read_dir("/").unwrap();
    let meta = entries[0].metadata().unwrap();
    assert_eq!(meta.len(), 5);
    assert_eq!(meta.modified(), Ok(Timestamp { nanos_since_epoch: 0 }));
    assert_eq!(entries[1].metadata().unwrap().len(), 0);
}

#[test]
fn read_dir_errors() {
    let fs = sample_fs();
    assert_eq!(fs.read_dir("/missing").unwrap_err(), MockFsError::EntryNotFound);
    assert_eq!(fs.read_dir("/file.txt").unwrap_err(), MockFsError::NotAFolder);
    assert_eq!(fs.read_dir("/file.txt/x").unwrap_err(), MockFsError::NotADirectory);
    assert_eq!(fs.read_dir("folder").unwrap_err(), MockFsError::NoRootFolder);
    assert_eq!(fs.read_dir("./folder").unwrap_err(), MockFsError::RelativePath);
    assert_eq!(fs.read_dir("/folder/../folder").unwrap_err(), MockFsError::RelativePath);
    assert_eq!(fs.read_dir("").unwrap_err(), MockFsError::NoPath);
    let twice = vec![PathComponent::RootDir, PathComponent::RootDir];
    assert_eq!(fs.read_dir_components(&twice).unwrap_err(), MockFsError::RootDirTwice);
    let prefixed = vec![PathComponent::Prefix, PathComponent::RootDir];
    assert_eq!(
        fs.read_dir_components(&prefixed).unwrap_err(),
        MockFsError::PrefixNotSupported
    );
}

#[test]
fn read_dir_follows_repeated_and_trailing_separators() {
    let fs = sample_fs();
    assert_eq!(fs.read_dir("//folder/").unwrap().len(), 2);
}

#[test]
fn error_kinds_and_messages() {
    assert_eq!(MockFsError::EntryNotFound.kind(), ErrorKind::NotFound);
    assert_eq!(MockFsError::NotADirectory.kind(), ErrorKind::NotADirectory);
    assert_eq!(MockFsError::NotAFolder.kind(), ErrorKind::NotADirectory);
    assert_eq!(MockFsError::RootDirTwice.message(), "Root dir appeared twice in path");
    assert_eq!(MockFsError::RelativePath.message(), "Relative paths not supported");
    assert_eq!(MockFsError::PrefixNotSupported.message(), "Prefix not supported");
    assert_eq!(MockFsError::NoRootFolder.message(), "No root folder");
    assert_eq!(MockFsError::NoPath.message(), "");
}

#[test]
fn insert_replaces_and_get_reads_back() {
    let mut m = Entries::new();
    assert!(m.insert("a".to_string(), mock_fs::file(vec![1])).is_none());
    assert!(m.insert("b".to_string(), mock_fs::file(vec![2])).is_none());
    assert_eq!(m.len(), 2);
    let previous = m.insert("a".to_string(), mock_fs::file(vec![3, 3]));
    assert!(matches!(previous, Some(smart_copy::mock_fs::FileOrFolder::File(ref c)) if c == &vec![1]));
    assert_eq!(m.len(), 2);
    assert!(matches!(m.get("a"), Some(smart_copy::mock_fs::FileOrFolder::File(c)) if c == &vec![3, 3]));
    assert!(matches!(m.get("b"), Some(smart_copy::mock_fs::FileOrFolder::File(c)) if c == &vec![2]));
    assert!(m.get("c").is_none());
    // A replaced entry keeps its place.
    let fs = MockFs::new(folder(m));
    let names: Vec<String> = fs.read_dir("/").unwrap().iter().map(|e| e.file_name()).collect();
    assert_eq!(names, vec!["a".to_string(), "b".to_string()]);
}

#[test]
fn default_is_an_empty_folder() {
    let fs = MockFs::default();
    assert_eq!(fs.read_dir("/").unwrap().len(), 0);
    assert_eq!(fs.read_dir_recursive("/").len(), 0);
}

#[test]
fn copy_copies_nothing() {
    assert_eq!(<MockFs as FS>::copy("/a", "/b"), Ok(0));
}

#[test]
fn file_type_from_flags() {
    assert_eq!(FileType::from_flags(true, false), FileType::File);
    assert_eq!(FileType::from_flags(false, true), FileType::Dir);
}

#[test]
fn recursive_listing_holds_every_entry_read_dir_lists() {
    let fs = sample_fs();
    let direct: Vec<String> = fs.read_dir("/").unwrap().iter().map(|e| e.file_name()).collect();
    let recursive = fs.read_dir_recursive("/");
    for name in direct {
        assert!(recursive
            .iter()
            .any(|(dir, r)| dir == "/" && r.as_ref().unwrap().file_name() == name));
    }
    let missing = fs.read_dir_recursive("/file.txt");
    assert_eq!(missing.len(), 1);
    assert_eq!(missing[0].1.as_ref().unwrap_err(), &fs.read_dir("/file.txt").unwrap_err());
}


#[test]
fn read_file_reads_contents() {
    let mut m = Entries::new();
    m.insert("a.bin".to_string(), mock_fs::file(vec![9, 8]));
    m.insert("sub".to_string(), empty_folder());
    let fs = MockFs::new(folder(m));
    assert_eq!(fs.read_file("/a.bin").unwrap(), vec![9, 8]);
    assert_eq!(fs.read_file("/sub").unwrap_err(), MockFsError::NotAFile);
    assert_eq!(fs.read_file("/none").unwrap_err(), MockFsError::EntryNotFound);
    assert_eq!(fs.read_file("").unwrap_err(), MockFsError::NoPath);
}

#[test]
fn copy_file_writes_and_replaces() {
    let mut fs = sample_fs();
    assert_eq!(fs.copy_file("/file.txt", "/folder/new.txt"), Ok(0));
    assert_eq!(fs.read_dir("/folder").unwrap().len(), 3);
    fs.update("/folder/cat.png", LeafOp::PutFile(vec![1, 2, 3])).unwrap();
    assert_eq!(fs.copy_file("/folder/cat.png", "/file.txt"), Ok(3));
    assert_eq!(fs.read_file("/file.txt").unwrap(), vec![1, 2, 3]);
    // The entry kept its place.
    assert_eq!(fs.read_dir("/").unwrap()[0].file_name(), "file.txt");
}

#[test]
fn copy_file_errors_change_nothing() {
    let mut fs = sample_fs();
    assert_eq!(fs.copy_file("/folder", "/x"), Err(MockFsError::NotAFile));
    assert_eq!(fs.copy_file("/file.txt", "/missing/x"), Err(MockFsError::EntryNotFound));
    assert_eq!(fs.copy_file("/file.txt", "/file.txt/x"), Err(MockFsError::NotADirectory));
    assert_eq!(fs.copy_file("/file.txt", "/"), Err(MockFsError::RootTarget));
    assert_eq!(fs.copy_file("/file.txt", "rel"), Err(MockFsError::NoRootFolder));
    assert_eq!(fs.read_dir_recursive("/").len(), 4);
}

#[test]
fn make_dir_makes_an_empty_folder_once() {
    let mut fs = sample_fs();
    assert_eq!(fs.make_dir("/new"), Ok(()));
    assert_eq!(fs.read_dir("/new").unwrap().len(), 0);
    assert_eq!(fs.make_dir("/folder"), Ok(()));
    assert_eq!(fs.read_dir("/folder").unwrap().len(), 2);
    assert_eq!(fs.make_dir("/file.txt"), Err(MockFsError::NotADirectory));
    assert_eq!(fs.make_dir("/a/b"), Err(MockFsError::EntryNotFound));
    assert_eq!(MockFsError::NotAFile.kind(), ErrorKind::IsADirectory);
    assert_eq!(MockFsError::RootTarget.kind(), ErrorKind::InvalidInput);
}
