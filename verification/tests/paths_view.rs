use smart_copy::paths_view::{destination_view, paths_view};

#[test]
fn no_path_selected() {
    assert_eq!(paths_view(&vec![]), vec!["<none selected>".to_string()]);
}

#[test]
fn selected_paths_are_listed() {
    let paths = vec!["/photos".to_string(), "/backup".to_string()];
    assert_eq!(paths_view(&paths), paths);
}

#[test]
fn destination_line() {
    assert_eq!(destination_view(&None), "<not selected>");
    assert_eq!(destination_view(&Some("/photos/2024".to_string())), "/photos/2024");
}
