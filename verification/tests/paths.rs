use fs_simulator::filesystem::{FileSystem, FileType};
use fs_simulator::path::{contains_separator, is_under, join_paths, parent_path, resolve_path, starts_at_root, text_eq};
use fs_simulator::user::User;

fn root_fs() -> FileSystem {
    FileSystem::new(User::default())
}

#[test]
fn parent_of_nested_absolute_path() {
    assert_eq!(FileSystem::extract_parent_paths("/a/b/c"), "/a/b");
    assert_eq!(parent_path("/a/b/c"), "/a/b");
}

#[test]
fn parent_of_child_of_root_is_root() {
    assert_eq!(FileSystem::extract_parent_paths("/a"), "/");
}

#[test]
fn parent_of_root_is_empty() {
    assert_eq!(FileSystem::extract_parent_paths("/"), "");
}

#[test]
fn parent_of_plain_name_is_empty() {
    assert_eq!(FileSystem::extract_parent_paths("notes.txt"), "");
    assert_eq!(FileSystem::extract_parent_paths(""), "");
}

#[test]
fn parent_of_relative_path_strips_last_segment() {
    assert_eq!(FileSystem::extract_parent_paths("a/b"), "a");
    assert_eq!(FileSystem::extract_parent_paths("a/b/c.txt"), "a/b");
}

#[test]
fn parent_handles_non_ascii_segments() {
    assert_eq!(FileSystem::extract_parent_paths("/données/été.txt"), "/données");
}

#[test]
fn full_path_of_absolute_name_is_the_name() {
    let fs = root_fs();
    assert_eq!(fs.get_full_path("/x/y"), "/x/y");
}

#[test]
fn full_path_at_root_has_one_separator() {
    let fs = root_fs();
    assert_eq!(fs.get_full_path("x"), "/x");
    assert_eq!(fs.get_full_path("x/y"), "/x/y");
}

#[test]
fn full_path_below_root_joins_with_separator() {
    let mut fs = root_fs();
    fs.mkdir("/a").unwrap();
    fs.cd("/a").unwrap();
    assert_eq!(fs.get_full_path("x"), "/a/x");
    assert_eq!(fs.get_full_path("/x"), "/x");
}

#[test]
fn path_helpers_agree_with_their_names() {
    assert!(starts_at_root("/a"));
    assert!(!starts_at_root("a/"));
    assert!(!starts_at_root(""));
    assert!(contains_separator("a/b"));
    assert!(!contains_separator("ab"));
    assert!(text_eq("abc", "abc"));
    assert!(!text_eq("abc", "abd"));
    assert_eq!(join_paths("/", "a"), "/a");
    assert_eq!(join_paths("/a", "b"), "/a/b");
    assert_eq!(resolve_path("/a", "b/c"), "/a/b/c");
    assert_eq!(resolve_path("/a", "/b"), "/b");
}

#[test]
fn under_needs_the_separator_after_the_directory() {
    assert!(is_under("/a/b", "/a"));
    assert!(is_under("/a/b/c", "/a"));
    assert!(is_under("/a/", "/a"));
    assert!(!is_under("/ab", "/a"));
    assert!(!is_under("/a", "/a"));
    assert!(!is_under("/b/a/c", "/a"));
}

fn parent_recorded(fs: &FileSystem, path: &str) -> Option<String> {
    let snapshot = fs.save();
    for entry in snapshot.files.iter() {
        if entry.name() == path {
            return entry.parent().clone();
        }
    }
    panic!("no entry {}", path);
}

#[test]
fn root_has_no_parent() {
    let fs = root_fs();
    assert_eq!(parent_recorded(&fs, "/"), None);
}

#[test]
fn parent_of_entry_created_by_absolute_name() {
    let mut fs = root_fs();
    fs.create_file("/a/b/c", FileType::Directory, "root", None).unwrap();
    assert_eq!(parent_recorded(&fs, "/a/b/c"), Some("/a/b".to_string()));
    fs.create_file("/top", FileType::File, "root", None).unwrap();
    assert_eq!(parent_recorded(&fs, "/top"), Some("/".to_string()));
}

#[test]
fn parent_of_entry_created_by_plain_name_is_the_cursor() {
    let mut fs = root_fs();
    fs.touch("x").unwrap();
    assert_eq!(parent_recorded(&fs, "/x"), Some("/".to_string()));
    fs.mkdir("/a").unwrap();
    fs.cd("a").unwrap();
    fs.touch("y").unwrap();
    assert_eq!(parent_recorded(&fs, "/a/y"), Some("/a".to_string()));
}

#[test]
fn parent_of_entry_created_by_relative_path() {
    let mut fs = root_fs();
    fs.touch("d/e").unwrap();
    assert_eq!(parent_recorded(&fs, "/d/e"), Some("/d".to_string()));
    fs.mkdir("/a").unwrap();
    fs.cd("/a").unwrap();
    fs.touch("d/e/f").unwrap();
    assert_eq!(parent_recorded(&fs, "/a/d/e/f"), Some("/a/d/e".to_string()));
}
