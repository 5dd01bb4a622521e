use smart_copy::mock_fs;
use smart_copy::async_fs::{FileType, Timestamp};
use smart_copy::file_comparer::FileComparer;
use smart_copy::mock_fs::{empty_folder, folder, Entries, MockFs};
use smart_copy::mock_fs::MockFsError;
use smart_copy::smart_copy::{
    all_existing_files_in, copy_step, existing_files_in, files_with_len, find_first_named,
    metadata_file,
    mock_listed_entries, source_files, CopyOp, ExistingFile, ListedEntry, SmartCopyOptions,
};

fn entries(items: Vec<(&str, smart_copy::mock_fs::FileOrFolder)>) -> Entries {
    let mut m = Entries::new();
    for (name, node) in items {
        m.insert(name.to_string(), node);
    }
    m
}

fn photos_fs() -> MockFs {
    MockFs::new(folder(entries(vec![
        (
            "source",
            folder(entries(vec![
                ("First Day of School.png", mock_fs::file("Waiting for the school bus".into())),
                ("Birthday.png", mock_fs::file("Cutting the birthday cake".into())),
            ])),
        ),
        (
            "photos",
            folder(entries(vec![
                (
                    "2023",
                    folder(entries(vec![
                        ("First Day of School.png", mock_fs::file("Waiting for the school bus".into())),
                        ("some random photo.jpg", mock_fs::file("WAITING FOR THE SCHOOL BUS".into())),
                    ])),
                ),
                ("2024", empty_folder()),
            ])),
        ),
    ])))
}

fn options(sources: Vec<&str>, destination: &str, check: Vec<&str>) -> SmartCopyOptions {
    SmartCopyOptions {
        sources: sources.into_iter().map(|s| s.to_string()).collect(),
        destination: destination.to_string(),
        check: check.into_iter().map(|s| s.to_string()).collect(),
        save_metadata_in_check: true,
        save_metadata_in_sources: true,
        save_metadata_in_destination: true,
    }
}

#[test]
fn smart_copy_it_works() {
    let mut fs = photos_fs();
    let reports = options(vec!["/source"], "/photos/2024", vec!["/photos"]).smart_copy(&mut fs).outcomes;
    assert_eq!(reports.len(), 1);
    let mut outcomes: Vec<(String, Vec<String>)> = reports[0]
        .iter()
        .map(|r| {
            let f = r.as_ref().unwrap();
            let mut same: Vec<String> = f.same_len.iter().map(|e| e.path.clone()).collect();
            same.sort();
            (f.path.clone(), same)
        })
        .collect();
    outcomes.sort();
    assert_eq!(
        outcomes,
        vec![
            ("/source/Birthday.png".to_string(), vec![]),
            (
                "/source/First Day of School.png".to_string(),
                vec![
                    "/photos/2023/First Day of School.png".to_string(),
                    "/photos/2023/some random photo.jpg".to_string(),
                ]
            ),
        ]
    );
}

#[test]
fn check_accepts_every_option() {
    assert_eq!(options(vec![], "", vec![]).check(), Ok(()));
    assert_eq!(options(vec!["/a"], "/b", vec!["/c"]).check(), Ok(()));
}

#[test]
fn destination_inside_a_check_folder_is_not_searched_twice() {
    let o = options(vec!["/source"], "/photos/2024", vec!["/photos"]);
    assert_eq!(o.folders_to_check(), vec!["/photos".to_string()]);
    let o = options(vec!["/source"], "/photos2/2024", vec!["/photos"]);
    assert_eq!(
        o.folders_to_check(),
        vec!["/photos".to_string(), "/photos2/2024".to_string()]
    );
    let o = options(vec![], "/dest", vec![]);
    assert_eq!(o.folders_to_check(), vec!["/dest".to_string()]);
    assert_eq!(
        o.folders_to_check_given(true),
        Vec::<String>::new()
    );
    assert_eq!(o.folders_to_check_given(false), vec!["/dest".to_string()]);
}

#[test]
fn destination_files_are_candidates_when_not_inside_check() {
    let mut fs = photos_fs();
    let reports = options(vec!["/source"], "/photos/2023", vec![]).smart_copy(&mut fs).outcomes;
    let first = reports[0]
        .iter()
        .map(|r| r.as_ref().unwrap())
        .find(|f| f.path == "/source/First Day of School.png")
        .unwrap();
    assert_eq!(first.same_len.len(), 2);
}

#[test]
fn duplicates_inside_the_sources_are_not_found() {
    // Two identical files in the source and nothing to check: no candidates at all.
    let mut fs = MockFs::new(folder(entries(vec![
        (
            "src",
            folder(entries(vec![("a.txt", mock_fs::file("same".into())), ("b.txt", mock_fs::file("same".into()))])),
        ),
        ("dest", empty_folder()),
    ])));
    let reports = options(vec!["/src"], "/dest", vec![]).smart_copy(&mut fs).outcomes;
    assert_eq!(reports[0].len(), 2);
    assert!(reports[0].iter().all(|r| r.as_ref().unwrap().same_len.is_empty()));
}

#[test]
fn a_failing_check_folder_fails_every_source_file() {
    let mut fs = photos_fs();
    let reports = options(vec!["/source"], "/photos/2024", vec!["/missing"]).smart_copy(&mut fs).outcomes;
    assert_eq!(reports[0].len(), 2);
    for r in &reports[0] {
        assert_eq!(r.as_ref().unwrap_err(), "Entry doesn't exist in folder");
    }
}

#[test]
fn a_failing_source_reports_its_error() {
    let mut fs = photos_fs();
    let reports = options(vec!["/nope", "/source"], "/photos/2024", vec!["/photos"]).smart_copy(&mut fs).outcomes;
    assert_eq!(reports.len(), 2);
    assert_eq!(reports[0].len(), 1);
    assert_eq!(reports[0][0].as_ref().unwrap_err(), "Entry doesn't exist in folder");
    assert_eq!(reports[1].len(), 2);
}

fn listed(dir: &str, name: &str, file_type: FileType, len: u64) -> Result<ListedEntry, String> {
    Ok(ListedEntry {
        dir: dir.to_string(),
        name: name.to_string(),
        file_type,
        len,
        modified: Timestamp { nanos_since_epoch: 7 },
    })
}

#[test]
fn existing_files_skip_folders_and_join_paths() {
    let listing = vec![
        listed("/a", "x.png", FileType::File, 10),
        listed("/a", "sub", FileType::Dir, 0),
        listed("/a/sub", "y.png", FileType::File, 20),
    ];
    let files = existing_files_in(&listing).unwrap();
    let paths: Vec<(String, u64)> = files.iter().map(|f| (f.path.clone(), f.len)).collect();
    assert_eq!(
        paths,
        vec![("/a/x.png".to_string(), 10), ("/a/sub/y.png".to_string(), 20)]
    );
    assert_eq!(files[0].last_modified, Timestamp { nanos_since_epoch: 7 });
}

#[test]
fn existing_files_stop_at_the_first_error() {
    let listing = vec![
        listed("/a", "x.png", FileType::File, 10),
        Err("first".to_string()),
        Err("second".to_string()),
    ];
    assert_eq!(existing_files_in(&listing).unwrap_err(), "first");
}

#[test]
fn all_existing_files_concatenate_or_fail() {
    let one = existing_files_in(&vec![listed("/a", "x", FileType::File, 1)]);
    let two = existing_files_in(&vec![listed("/b", "y", FileType::File, 2)]);
    let all = all_existing_files_in(vec![one, two]).unwrap();
    assert_eq!(all.len(), 2);
    assert_eq!(all[1].path, "/b/y");
    let ok = existing_files_in(&vec![listed("/a", "x", FileType::File, 1)]);
    let failed = all_existing_files_in(vec![ok, Err("boom".to_string()), Err("later".to_string())]);
    assert_eq!(failed.unwrap_err(), "boom");
}

#[test]
fn candidates_have_the_same_size() {
    let files = vec![
        ExistingFile { path: "/p/a".to_string(), name: "a".to_string(), len: 3, last_modified: Timestamp { nanos_since_epoch: 0 } },
        ExistingFile { path: "/p/b".to_string(), name: "b".to_string(), len: 4, last_modified: Timestamp { nanos_since_epoch: 0 } },
        ExistingFile { path: "/p/c".to_string(), name: "c".to_string(), len: 3, last_modified: Timestamp { nanos_since_epoch: 0 } },
    ];
    let same: Vec<String> = files_with_len(&files, 3).iter().map(|f| f.path.clone()).collect();
    assert_eq!(same, vec!["/p/a".to_string(), "/p/c".to_string()]);
    assert!(files_with_len(&files, 5).is_empty());
}

#[test]
fn source_files_pass_errors_and_skip_folders() {
    let existing: Result<Vec<ExistingFile>, String> = Ok(vec![ExistingFile {
        path: "/p/a".to_string(),
        name: "a".to_string(),
        len: 3,
        last_modified: Timestamp { nanos_since_epoch: 0 },
    }]);
    let listing = vec![
        listed("/s", "x", FileType::File, 3),
        listed("/s", "d", FileType::Dir, 0),
        Err("bad entry".to_string()),
        listed("/s/d", "y", FileType::File, 9),
    ];
    let out = source_files(&listing, &existing);
    assert_eq!(out.len(), 3);
    assert_eq!(out[0].as_ref().unwrap().path, "/s/x");
    assert_eq!(out[0].as_ref().unwrap().same_len.len(), 1);
    assert_eq!(out[1].as_ref().unwrap_err(), "bad entry");
    assert_eq!(out[2].as_ref().unwrap().path, "/s/d/y");
    assert!(out[2].as_ref().unwrap().same_len.is_empty());
    let failed: Result<Vec<ExistingFile>, String> = Err("no search".to_string());
    let out = source_files(&listing, &failed);
    assert_eq!(out.len(), 3);
    assert_eq!(out[0].as_ref().unwrap_err(), "no search");
    assert_eq!(out[1].as_ref().unwrap_err(), "bad entry");
}

#[test]
fn mock_listing_entries() {
    let fs = photos_fs();
    let listing = mock_listed_entries(&fs, "/photos");
    assert_eq!(listing.len(), 4);
    let first = listing[0].as_ref().unwrap();
    assert_eq!((first.dir.as_str(), first.name.as_str()), ("/photos", "2023"));
    assert_eq!(first.file_type, FileType::Dir);
    let missing = mock_listed_entries(&fs, "/nope");
    assert_eq!(missing.len(), 1);
    assert_eq!(missing[0].as_ref().unwrap_err(), "Entry doesn't exist in folder");
}

#[test]
fn file_comparer_new() {
    let _comparer = FileComparer::new(vec!["/photos".to_string()]);
}


#[test]
fn smart_copy_copies_what_is_not_a_duplicate() {
    let mut fs = photos_fs();
    let report = options(vec!["/source"], "/photos/2024", vec!["/photos"]).smart_copy(&mut fs);
    assert_eq!(
        fs.read_file("/photos/2024/Birthday.png").unwrap(),
        b"Cutting the birthday cake".to_vec()
    );
    assert_eq!(
        fs.read_file("/photos/2024/First Day of School.png").unwrap_err(),
        MockFsError::EntryNotFound
    );
    assert_eq!(report.plan.len(), 1);
    assert_eq!(report.results, vec![Ok(25)]);
    // The sources are left as they were.
    assert_eq!(
        fs.read_file("/source/Birthday.png").unwrap(),
        b"Cutting the birthday cake".to_vec()
    );
}

#[test]
fn only_one_existing_file_of_a_name_is_compared() {
    let mut fs = MockFs::new(folder(entries(vec![
        (
            "exist",
            folder(entries(vec![
                ("a", folder(entries(vec![("file.txt", mock_fs::file("hi".into()))]))),
                ("b", folder(entries(vec![("file.txt", mock_fs::file("hello".into()))]))),
            ])),
        ),
        ("src", folder(entries(vec![("file.txt", mock_fs::file("hello".into()))]))),
    ])));
    options(vec!["/src"], "/exist", vec!["/exist"]).smart_copy(&mut fs);
    assert_eq!(fs.read_file("/exist/file.txt").unwrap(), b"hello".to_vec());
    assert_eq!(fs.read_file("/exist/a/file.txt").unwrap(), b"hi".to_vec());
    assert_eq!(fs.read_file("/exist/b/file.txt").unwrap(), b"hello".to_vec());
    assert_eq!(fs.read_file("/src/file.txt").unwrap(), b"hello".to_vec());
}

#[test]
fn identical_source_files_are_both_copied() {
    let mut fs = MockFs::new(folder(entries(vec![
        (
            "src",
            folder(entries(vec![("a.txt", mock_fs::file("same".into())), ("b.txt", mock_fs::file("same".into()))])),
        ),
        ("dest", empty_folder()),
    ])));
    let report = options(vec!["/src"], "/dest", vec![]).smart_copy(&mut fs);
    assert_eq!(report.results, vec![Ok(4), Ok(4)]);
    assert_eq!(fs.read_file("/dest/a.txt").unwrap(), b"same".to_vec());
    assert_eq!(fs.read_file("/dest/b.txt").unwrap(), b"same".to_vec());
}

#[test]
fn a_duplicate_already_in_the_destination_is_not_copied_again() {
    let mut fs = MockFs::new(folder(entries(vec![
        ("src", folder(entries(vec![("a.txt", mock_fs::file("abc".into()))]))),
        ("dest", folder(entries(vec![("a.txt", mock_fs::file("abc".into()))]))),
    ])));
    let report = options(vec!["/src"], "/dest", vec![]).smart_copy(&mut fs);
    assert!(report.plan.is_empty());
    // Same name and size but other contents: copied over it.
    let mut fs = MockFs::new(folder(entries(vec![
        ("src", folder(entries(vec![("a.txt", mock_fs::file("abc".into()))]))),
        ("dest", folder(entries(vec![("a.txt", mock_fs::file("xyz".into()))]))),
    ])));
    options(vec!["/src"], "/dest", vec![]).smart_copy(&mut fs);
    assert_eq!(fs.read_file("/dest/a.txt").unwrap(), b"abc".to_vec());
}

#[test]
fn folders_of_a_source_are_made_again_in_the_destination() {
    let mut fs = MockFs::new(folder(entries(vec![
        (
            "src",
            folder(entries(vec![
                ("top.txt", mock_fs::file("1".into())),
                ("sub", folder(entries(vec![("deep.txt", mock_fs::file("22".into()))]))),
            ])),
        ),
        ("dest", empty_folder()),
    ])));
    let report = options(vec!["/src"], "/dest", vec![]).smart_copy(&mut fs);
    assert_eq!(report.results, vec![Ok(1), Ok(0), Ok(2)]);
    assert!(matches!(report.plan[1], Ok(CopyOp::MakeDir(ref p)) if p == "/dest/sub"));
    assert_eq!(fs.read_file("/dest/sub/deep.txt").unwrap(), b"22".to_vec());
}

#[test]
fn nothing_is_copied_where_the_search_fails() {
    let mut fs = photos_fs();
    let report = options(vec!["/source"], "/photos/2024", vec!["/missing"]).smart_copy(&mut fs);
    assert!(report.plan.is_empty());
    assert!(report.results.is_empty());
    assert_eq!(fs.read_dir("/photos/2024").unwrap().len(), 0);
}

#[test]
fn a_copy_into_a_missing_destination_fails_and_changes_nothing() {
    let mut fs = MockFs::new(folder(entries(vec![
        ("src", folder(entries(vec![("a.txt", mock_fs::file("abc".into()))]))),
        ("other", empty_folder()),
    ])));
    let report = options(vec!["/src"], "/other/missing", vec!["/other"]).smart_copy(&mut fs);
    assert_eq!(report.plan.len(), 1);
    assert_eq!(report.results, vec![Err("Entry doesn't exist in folder".to_string())]);
    assert_eq!(fs.read_dir("/other").unwrap().len(), 0);
}

#[test]
fn metadata_locations() {
    let mut o = options(vec!["/source"], "/photos/2024", vec!["/photos"]);
    o.save_metadata_in_sources = false;
    o.save_metadata_in_check = false;
    o.save_metadata_in_destination = true;
    assert_eq!(o.metadata_files(), vec!["/photos/.smart_photo_copier".to_string()]);
    o.save_metadata_in_check = true;
    assert_eq!(o.metadata_files(), vec!["/photos/.smart_photo_copier".to_string()]);
    o.save_metadata_in_sources = true;
    assert_eq!(
        o.metadata_files(),
        vec!["/source/.smart_photo_copier".to_string(), "/photos/.smart_photo_copier".to_string()]
    );
    let mut o = options(vec!["/source"], "/backup", vec!["/photos"]);
    o.save_metadata_in_sources = false;
    o.save_metadata_in_check = false;
    assert_eq!(o.metadata_files(), vec!["/backup/.smart_photo_copier".to_string()]);
    o.save_metadata_in_destination = false;
    assert!(o.metadata_files().is_empty());
    let fs_report = options(vec!["/source"], "/photos/2024", vec!["/photos"]).smart_copy(&mut photos_fs());
    assert_eq!(
        fs_report.metadata_files,
        vec!["/source/.smart_photo_copier".to_string(), "/photos/.smart_photo_copier".to_string()]
    );
}

#[test]
fn copy_steps() {
    let entry = |dir: &str, name: &str, file_type: FileType, len: u64| ListedEntry {
        dir: dir.to_string(),
        name: name.to_string(),
        file_type,
        len,
        modified: Timestamp { nanos_since_epoch: 0 },
    };
    let f = entry("/s/x", "a.png", FileType::File, 5);
    assert!(matches!(
        copy_step("/s", "/d", &f, None, false),
        Some(Ok(CopyOp::Copy { ref from, ref to })) if from == "/s/x/a.png" && to == "/d/x/a.png"
    ));
    let same = ExistingFile {
        path: "/e/a.png".to_string(),
        name: "a.png".to_string(),
        len: 5,
        last_modified: Timestamp { nanos_since_epoch: 0 },
    };
    assert!(copy_step("/s", "/d", &f, Some(&same), true).is_none());
    assert!(copy_step("/s", "/d", &f, Some(&same), false).is_some());
    let dir = entry("/s", "x", FileType::Dir, 0);
    assert!(matches!(copy_step("/s", "/d", &dir, None, false), Some(Ok(CopyOp::MakeDir(ref p))) if p == "/d/x"));
    let outside = entry("/elsewhere", "a.png", FileType::File, 5);
    assert_eq!(
        copy_step("/s", "/d", &outside, None, false).unwrap().unwrap_err(),
        "Not inside the source folder"
    );
}

#[test]
fn the_first_existing_file_of_a_name_is_found() {
    let file = |path: &str, name: &str| ExistingFile {
        path: path.to_string(),
        name: name.to_string(),
        len: 1,
        last_modified: Timestamp { nanos_since_epoch: 0 },
    };
    let files = vec![file("/a/x", "x"), file("/b/y", "y"), file("/c/x", "x")];
    assert_eq!(find_first_named(&files, &"x".to_string()), Some(0));
    assert_eq!(find_first_named(&files, &"y".to_string()), Some(1));
    assert_eq!(find_first_named(&files, &"z".to_string()), None);
}

#[test]
fn a_step_outside_the_destination_is_refused() {
    let entry = ListedEntry {
        dir: "/s".to_string(),
        name: "/etc/passwd".to_string(),
        file_type: FileType::File,
        len: 5,
        modified: Timestamp { nanos_since_epoch: 0 },
    };
    assert_eq!(copy_step("/s", "/d", &entry, None, false).unwrap().unwrap_err(), "Outside the destination");
    let folder_entry = ListedEntry { file_type: FileType::Dir, ..entry };
    assert_eq!(
        copy_step("/s", "/d", &folder_entry, None, false).unwrap().unwrap_err(),
        "Outside the destination"
    );
}

#[test]
fn nothing_outside_the_destination_changes() {
    let mut fs = MockFs::new(folder(entries(vec![
        ("victim.txt", mock_fs::file("untouched".into())),
        (
            "src",
            folder(entries(vec![
                ("/victim.txt", mock_fs::file("replaced".into())),
                ("kept.txt", mock_fs::file("copy me".into())),
            ])),
        ),
        ("dest", empty_folder()),
    ])));
    let report = options(vec!["/src"], "/dest", vec![]).smart_copy(&mut fs);
    assert_eq!(report.plan.len(), 2);
    assert_eq!(report.results[0], Err("Outside the destination".to_string()));
    assert_eq!(report.results[1], Ok(7));
    assert_eq!(fs.read_file("/victim.txt").unwrap(), b"untouched".to_vec());
    assert_eq!(fs.read_file("/dest/kept.txt").unwrap(), b"copy me".to_vec());
    assert_eq!(fs.read_file("/src/kept.txt").unwrap(), b"copy me".to_vec());
}

#[test]
fn metadata_paths_and_entry_paths() {
    assert_eq!(metadata_file("/photos"), "/photos/.smart_photo_copier");
    let mut o = options(vec!["/source"], "/photos/2024", vec!["/photos"]);
    o.save_metadata_in_sources = true;
    o.save_metadata_in_check = false;
    o.save_metadata_in_destination = true;
    assert_eq!(o.metadata_folders(), vec!["/source".to_string(), "/photos".to_string()]);
    let entry = ListedEntry {
        dir: "/photos/2023".to_string(),
        name: "a.png".to_string(),
        file_type: FileType::File,
        len: 1,
        modified: Timestamp { nanos_since_epoch: 0 },
    };
    assert_eq!(entry.path(), "/photos/2023/a.png");
}
