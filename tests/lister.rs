use game_grove::error::FsOperation;
use game_grove::lister::{list_folders, ChildInfo, FolderEntry, RootListing, SortOrder};

fn path(parts: &[&str]) -> Vec<String> {
    parts.iter().map(|s| s.to_string()).collect()
}

fn child(name: &str, is_dir: bool, modified: Option<u64>) -> ChildInfo {
    ChildInfo { name: name.to_string(), is_dir, modified }
}

fn names(v: &[FolderEntry]) -> Vec<String> {
    v.iter().map(|e| e.name.clone()).collect()
}

#[test]
fn missing_root_lists_empty() {
    let r = list_folders(&path(&["home", "me", "src"]), RootListing::Missing, SortOrder::NewestFirst);
    assert!(r.unwrap().is_empty());
    let r = list_folders(&path(&["nowhere"]), RootListing::Missing, SortOrder::NameAscending);
    assert!(r.unwrap().is_empty());
}

#[test]
fn unreadable_root_is_an_error() {
    let r = list_folders(&path(&["locked"]), RootListing::Unreadable, SortOrder::NewestFirst);
    let e = r.unwrap_err();
    assert_eq!(e.operation, FsOperation::ReadDir);
    assert_eq!(e.path, path(&["locked"]));
}

#[test]
fn files_are_left_out() {
    let listing = RootListing::Listed(vec![
        child("a.txt", false, Some(5)),
        child("b", true, Some(1)),
        child("c", true, Some(2)),
    ]);
    let v = list_folders(&path(&["ws"]), listing, SortOrder::NameAscending).unwrap();
    assert_eq!(names(&v), vec!["b".to_string(), "c".to_string()]);
    assert_eq!(v[0].path, "/ws/b");
    assert_eq!(v[1].path, "/ws/c");
    assert_eq!(v[0].last_modified, 1);
    assert_eq!(v[1].last_modified, 2);
}

#[test]
fn newest_first_order() {
    let listing = RootListing::Listed(vec![
        child("old", true, Some(100)),
        child("new", true, Some(300)),
        child("mid", true, Some(200)),
    ]);
    let v = list_folders(&path(&["home", "me", "src"]), listing, SortOrder::NewestFirst).unwrap();
    assert_eq!(names(&v), vec!["new".to_string(), "mid".to_string(), "old".to_string()]);
    assert_eq!(v[0].path, "/home/me/src/new");
}

#[test]
fn unknown_time_counts_as_zero() {
    let listing = RootListing::Listed(vec![child("x", true, None), child("y", true, Some(7))]);
    let v = list_folders(&path(&["r"]), listing, SortOrder::NewestFirst).unwrap();
    assert_eq!(names(&v), vec!["y".to_string(), "x".to_string()]);
    assert_eq!(v[1].last_modified, 0);
}

#[test]
fn ties_keep_listing_order() {
    let listing = RootListing::Listed(vec![
        child("first", true, Some(9)),
        child("second", true, Some(9)),
        child("third", true, Some(9)),
    ]);
    let v = list_folders(&path(&["r"]), listing, SortOrder::NewestFirst).unwrap();
    assert_eq!(names(&v), vec!["first".to_string(), "second".to_string(), "third".to_string()]);
}

#[test]
fn name_order_ignores_case() {
    let listing = RootListing::Listed(vec![
        child("Beta", true, Some(1)),
        child("alpha", true, Some(2)),
        child("Gamma", true, Some(3)),
        child("delta", true, Some(4)),
    ]);
    let v = list_folders(&path(&["r"]), listing, SortOrder::NameAscending).unwrap();
    assert_eq!(
        names(&v),
        vec!["alpha".to_string(), "Beta".to_string(), "delta".to_string(), "Gamma".to_string()]
    );
}

#[test]
fn listing_a_root_without_children() {
    let v = list_folders(&path(&[]), RootListing::Listed(vec![]), SortOrder::NewestFirst).unwrap();
    assert!(v.is_empty());
}

#[test]
fn entry_of_top_level_directory() {
    let listing = RootListing::Listed(vec![child("tmp", true, Some(42))]);
    let v = list_folders(&path(&[]), listing, SortOrder::NewestFirst).unwrap();
    assert_eq!(v[0].name, "tmp");
    assert_eq!(v[0].path, "/tmp");
    assert_eq!(v[0].last_modified, 42);
}

#[test]
fn names_equal_but_for_case_keep_listing_order() {
    let listing = RootListing::Listed(vec![
        child("beta", true, Some(1)),
        child("Alpha", true, Some(2)),
        child("alpha", true, Some(3)),
        child("ALPHA", true, Some(4)),
    ]);
    let v = list_folders(&path(&["r"]), listing, SortOrder::NameAscending).unwrap();
    assert_eq!(
        names(&v),
        vec!["Alpha".to_string(), "alpha".to_string(), "ALPHA".to_string(), "beta".to_string()]
    );
}
