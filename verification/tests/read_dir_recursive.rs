use smart_copy::async_fs::FileType;
use smart_copy::read_dir_recursive::walk_step;

#[test]
fn a_folder_is_yielded_and_read_next() {
    let dir = "/photos".to_string();
    let ((at, entry), next) = walk_step(&dir, Ok(("2024".to_string(), FileType::Dir)));
    assert_eq!(at, "/photos");
    assert_eq!(entry, Ok(("2024".to_string(), FileType::Dir)));
    assert_eq!(next, Some("/photos/2024".to_string()));
}

#[test]
fn a_file_is_yielded_and_not_read() {
    let dir = "/photos/2024".to_string();
    let ((at, entry), next) = walk_step(&dir, Ok(("a.png".to_string(), FileType::File)));
    assert_eq!(at, "/photos/2024");
    assert_eq!(entry, Ok(("a.png".to_string(), FileType::File)));
    assert_eq!(next, None);
}

#[test]
fn an_error_is_yielded_with_its_folder() {
    let dir = "/locked".to_string();
    let ((at, entry), next) = walk_step(&dir, Err("Permission denied".to_string()));
    assert_eq!(at, "/locked");
    assert_eq!(entry, Err("Permission denied".to_string()));
    assert_eq!(next, None);
}
