use fs_simulator::container::Container;
use fs_simulator::error::FsError;
use fs_simulator::filesystem::{FileEntry, FilePermission, FileSystem, FileType, Snapshot};
use fs_simulator::user::User;

const LIMIT: usize = 1 << 20;

fn engine_for(name: &str) -> FileSystem {
    FileSystem::new(User::new(name, true, true, false))
}

fn pattern(len: usize) -> Vec<u8> {
    let mut data = Vec::new();
    for i in 0..len {
        data.push((i % 251) as u8 + 1);
    }
    data
}

fn entry_of(fs: &FileSystem, path: &str) -> FileEntry {
    let snapshot = fs.save();
    for entry in snapshot.files.iter() {
        if entry.name() == path {
            return entry.clone();
        }
    }
    panic!("no entry {}", path);
}

#[test]
fn fresh_engine_holds_only_the_root() {
    let fs = engine_for("alice");
    let snapshot = fs.save();
    assert_eq!(snapshot.files.len(), 1);
    assert_eq!(snapshot.next_offset, 0);
    assert!(snapshot.free_list.is_empty());
    assert_eq!(snapshot.current_path, "/");
    assert_eq!(fs.current_path, "/");
    let root = &snapshot.files[0];
    assert_eq!(root.name(), "/");
    assert_eq!(root.file_type(), FileType::Directory);
    assert_eq!(root.owned_user(), &Some("alice".to_string()));
    assert_eq!(
        root.permission(),
        &Some(vec![FilePermission::Readable, FilePermission::Writable])
    );
    assert_eq!(root.size(), 0);
    assert!(root.pages().is_empty());
    assert!(fs.is_file_exists("/"));
}

#[test]
fn created_entry_exists_at_once() {
    let mut fs = engine_for("alice");
    assert!(!fs.is_file_exists("notes"));
    assert_eq!(fs.create_file("notes", FileType::File, "alice", None), Ok(()));
    assert!(fs.is_file_exists("notes"));
    assert!(fs.is_file_exists("/notes"));
    let entry = entry_of(&fs, "/notes");
    assert_eq!(entry.size(), 0);
    assert!(entry.pages().is_empty());
    assert_eq!(entry.owned_user(), &Some("alice".to_string()));
    assert_eq!(entry.permission(), &None);
    assert_eq!(entry.file_type(), FileType::File);
}

#[test]
fn second_create_of_same_path_fails() {
    let mut fs = engine_for("alice");
    fs.create_file("notes", FileType::File, "alice", None).unwrap();
    assert_eq!(
        fs.create_file("/notes", FileType::Directory, "bob", None),
        Err(FsError::AlreadyExists)
    );
    assert_eq!(fs.touch("notes"), Err(FsError::AlreadyExists));
    assert_eq!(fs.mkdir("notes"), Err(FsError::AlreadyExists));
    assert_eq!(fs.save().files.len(), 2);
    assert_eq!(entry_of(&fs, "/notes").file_type(), FileType::File);
}

#[test]
fn touch_and_mkdir_use_the_acting_user() {
    let mut fs = engine_for("carol");
    fs.touch("f").unwrap();
    fs.mkdir("d").unwrap();
    let f = entry_of(&fs, "/f");
    let d = entry_of(&fs, "/d");
    assert_eq!(f.file_type(), FileType::File);
    assert_eq!(d.file_type(), FileType::Directory);
    assert_eq!(f.owned_user(), &Some("carol".to_string()));
    assert_eq!(d.owned_user(), &Some("carol".to_string()));
    let flags = Some(vec![FilePermission::Readable, FilePermission::Writable]);
    assert_eq!(f.permission(), &flags);
    assert_eq!(d.permission(), &flags);
}

fn round_trip(len: usize) {
    let mut fs = engine_for("alice");
    let mut container = Container::new(LIMIT);
    let data = pattern(len);
    fs.touch("f").unwrap();
    assert_eq!(fs.write_file("f", &data, &mut container), Ok(()));
    assert_eq!(fs.read_file("f", &container), Ok(data));
    let entry = entry_of(&fs, "/f");
    assert_eq!(entry.size(), len as u64);
    assert_eq!(entry.pages().len(), (len + 1023) / 1024);
}

#[test]
fn round_trip_of_empty_data() {
    round_trip(0);
}

#[test]
fn round_trip_of_one_byte() {
    round_trip(1);
}

#[test]
fn round_trip_of_exactly_one_page() {
    round_trip(1024);
}

#[test]
fn round_trip_of_several_pages_and_a_remainder() {
    round_trip(3 * 1024 + 17);
}

#[test]
fn round_trip_of_exactly_two_pages() {
    round_trip(2048);
}

#[test]
fn pages_are_handed_out_in_steps_of_the_page_size() {
    let mut fs = engine_for("alice");
    let mut container = Container::new(LIMIT);
    fs.touch("f").unwrap();
    fs.write_file("f", &pattern(2500), &mut container).unwrap();
    assert_eq!(entry_of(&fs, "/f").pages(), &vec![0u64, 1024, 2048]);
    assert_eq!(fs.save().next_offset, 3072);
    assert_eq!(container.len(), 3072);
    let bytes = container.into_bytes();
    assert_eq!(&bytes[..2500], &pattern(2500)[..]);
    assert!(bytes[2500..].iter().all(|b| *b == 0));
}

#[test]
fn write_appends_to_what_the_file_holds() {
    let mut fs = engine_for("alice");
    let mut container = Container::new(LIMIT);
    fs.touch("f").unwrap();
    fs.write_file("f", b"hello ", &mut container).unwrap();
    fs.write_file("f", b"world", &mut container).unwrap();
    assert_eq!(fs.read_file("f", &container), Ok(b"hello world".to_vec()));
    assert_eq!(entry_of(&fs, "/f").pages().len(), 1);
    let first = pattern(1000);
    let second = pattern(100);
    fs.touch("g").unwrap();
    fs.write_file("g", &first, &mut container).unwrap();
    fs.write_file("g", &second, &mut container).unwrap();
    let mut both = first.clone();
    both.extend_from_slice(&second);
    assert_eq!(fs.read_file("g", &container), Ok(both));
    assert_eq!(entry_of(&fs, "/g").pages(), &vec![1024u64, 2048]);
    assert_eq!(fs.read_file("f", &container), Ok(b"hello world".to_vec()));
}

#[test]
fn write_does_not_ask_for_the_kind() {
    let mut fs = engine_for("alice");
    let mut container = Container::new(LIMIT);
    fs.mkdir("d").unwrap();
    assert_eq!(fs.write_file("d", b"note", &mut container), Ok(()));
    assert_eq!(fs.read_file("d", &container), Ok(b"note".to_vec()));
    assert_eq!(fs.cd("d"), Ok(()));
}

#[test]
fn write_of_no_bytes_changes_nothing() {
    let mut fs = engine_for("alice");
    let mut container = Container::new(LIMIT);
    fs.touch("f").unwrap();
    assert_eq!(fs.write_file("f", b"", &mut container), Ok(()));
    assert_eq!(entry_of(&fs, "/f").size(), 0);
    assert_eq!(fs.save().next_offset, 0);
    assert_eq!(container.len(), 0);
}

#[test]
fn write_and_read_of_missing_entry_fail() {
    let mut fs = engine_for("alice");
    let mut container = Container::new(LIMIT);
    assert_eq!(fs.write_file("ghost", b"x", &mut container), Err(FsError::NotFound));
    assert_eq!(fs.read_file("ghost", &container), Err(FsError::NotFound));
    assert_eq!(fs.rm("ghost"), Err(FsError::NotFound));
    assert_eq!(fs.cd("ghost"), Err(FsError::NotFound));
    assert_eq!(fs.cp("ghost", "copy", &mut container), Err(FsError::NotFound));
    assert_eq!(fs.mv("ghost", "copy", &mut container), Err(FsError::NotFound));
    assert!(!fs.is_file_exists("copy"));
}

#[test]
fn write_fails_when_the_container_is_full() {
    let mut fs = engine_for("alice");
    let mut container = Container::new(2048);
    fs.touch("f").unwrap();
    fs.write_file("f", &pattern(1024), &mut container).unwrap();
    let before = fs.save();
    assert_eq!(
        fs.write_file("f", &pattern(1025), &mut container),
        Err(FsError::IoFailure)
    );
    let after = fs.save();
    assert_eq!(after.next_offset, before.next_offset);
    assert_eq!(entry_of(&fs, "/f").size(), 1024);
    assert_eq!(container.len(), 1024);
    assert_eq!(fs.write_file("f", &pattern(1024), &mut container), Ok(()));
    assert_eq!(entry_of(&fs, "/f").size(), 2048);
}

#[test]
fn read_fails_when_the_container_is_too_short() {
    let mut fs = engine_for("alice");
    let mut container = Container::new(LIMIT);
    fs.touch("f").unwrap();
    fs.write_file("f", &pattern(10), &mut container).unwrap();
    let empty = Container::new(LIMIT);
    assert_eq!(fs.read_file("f", &empty), Err(FsError::IoFailure));
    let short = Container::from_bytes(vec![7u8; 9], LIMIT);
    assert_eq!(fs.read_file("f", &short), Err(FsError::IoFailure));
    let enough = Container::from_bytes(vec![7u8; 10], LIMIT);
    assert_eq!(fs.read_file("f", &enough), Ok(vec![7u8; 10]));
}

#[test]
fn removed_file_returns_its_pages_in_order() {
    let mut fs = engine_for("alice");
    let mut container = Container::new(LIMIT);
    fs.touch("f").unwrap();
    fs.write_file("f", &pattern(2500), &mut container).unwrap();
    fs.touch("g").unwrap();
    fs.write_file("g", &pattern(10), &mut container).unwrap();
    assert_eq!(fs.rm("f"), Ok(()));
    assert!(!fs.is_file_exists("f"));
    let snapshot = fs.save();
    assert_eq!(snapshot.free_list, vec![0u64, 1024, 2048]);
    assert_eq!(snapshot.next_offset, 4096);
}

#[test]
fn freed_pages_are_reused_first_in_first_out() {
    let mut fs = engine_for("alice");
    let mut container = Container::new(LIMIT);
    fs.touch("f").unwrap();
    fs.write_file("f", &pattern(2500), &mut container).unwrap();
    fs.touch("g").unwrap();
    fs.write_file("g", &pattern(10), &mut container).unwrap();
    fs.rm("f").unwrap();
    fs.touch("h").unwrap();
    let data = vec![9u8; 2049];
    fs.write_file("h", &data, &mut container).unwrap();
    assert_eq!(entry_of(&fs, "/h").pages(), &vec![0u64, 1024, 2048]);
    let snapshot = fs.save();
    assert!(snapshot.free_list.is_empty());
    assert_eq!(snapshot.next_offset, 4096);
    assert_eq!(fs.read_file("h", &container), Ok(data));
    assert_eq!(fs.read_file("g", &container), Ok(pattern(10)));
    assert_eq!(container.read_at(2049, 1023), Ok(vec![0u8; 1023]));
    fs.write_file("g", &pattern(1024), &mut container).unwrap();
    assert_eq!(entry_of(&fs, "/g").pages(), &vec![3072u64, 4096]);
    assert_eq!(fs.save().next_offset, 5120);
}

#[test]
fn removing_a_directory_removes_what_lies_below_it() {
    let mut fs = engine_for("alice");
    let mut container = Container::new(LIMIT);
    fs.mkdir("/a").unwrap();
    fs.mkdir("/a/b").unwrap();
    fs.touch("/a/b/deep.txt").unwrap();
    fs.touch("/a/x.txt").unwrap();
    fs.touch("/ab").unwrap();
    fs.mkdir("/c").unwrap();
    fs.touch("/c/a").unwrap();
    fs.write_file("/a/x.txt", &pattern(1500), &mut container).unwrap();
    fs.write_file("/ab", &pattern(5), &mut container).unwrap();
    fs.write_file("/a/b/deep.txt", &pattern(5), &mut container).unwrap();
    assert_eq!(fs.rm("a"), Ok(()));
    for gone in ["/a", "/a/b", "/a/b/deep.txt", "/a/x.txt"] {
        assert!(!fs.is_file_exists(gone), "{} is still there", gone);
    }
    for kept in ["/", "/ab", "/c", "/c/a"] {
        assert!(fs.is_file_exists(kept), "{} is gone", kept);
    }
    assert_eq!(fs.read_file("/ab", &container), Ok(pattern(5)));
    assert_eq!(fs.save().free_list, vec![3072u64, 0, 1024]);
    assert_eq!(fs.save().files.len(), 4);
}

#[test]
fn removing_an_empty_directory_removes_one_entry() {
    let mut fs = engine_for("alice");
    fs.mkdir("d").unwrap();
    fs.touch("e").unwrap();
    assert_eq!(fs.rm("d"), Ok(()));
    assert!(!fs.is_file_exists("d"));
    assert!(fs.is_file_exists("e"));
    assert_eq!(fs.save().files.len(), 2);
}

#[test]
fn blocked_file_stops_the_removal_of_a_directory() {
    let mut fs = engine_for("bob");
    fs.create_file("/d", FileType::Directory, "bob", None).unwrap();
    fs.create_file("/d/a", FileType::File, "bob", None).unwrap();
    fs.create_file("/d/b", FileType::File, "alice", None).unwrap();
    fs.create_file("/d/c", FileType::File, "bob", None).unwrap();
    assert_eq!(fs.rm("/d"), Err(FsError::PermissionDenied));
    assert!(!fs.is_file_exists("/d/a"));
    assert!(fs.is_file_exists("/d/b"));
    assert!(fs.is_file_exists("/d/c"));
    assert!(fs.is_file_exists("/d"));
}

#[test]
fn directory_of_another_owner_can_be_removed_when_nothing_below_is_blocked() {
    let mut fs = engine_for("bob");
    fs.create_file("/d", FileType::Directory, "alice", None).unwrap();
    fs.create_file("/d/sub", FileType::Directory, "alice", None).unwrap();
    fs.create_file("/d/mine", FileType::File, "bob", None).unwrap();
    assert_eq!(fs.rm("/d"), Ok(()));
    assert!(!fs.is_file_exists("/d"));
    assert!(!fs.is_file_exists("/d/sub"));
    assert!(!fs.is_file_exists("/d/mine"));
}

#[test]
fn copy_keeps_content_owner_and_flags() {
    let mut fs = FileSystem::new(User::default());
    let mut container = Container::new(LIMIT);
    let flags = Some(vec![FilePermission::Executable]);
    fs.create_file("src", FileType::File, "alice", flags.clone()).unwrap();
    let data = pattern(1300);
    fs.write_file("src", &data, &mut container).unwrap();
    assert_eq!(fs.cp("src", "dst", &mut container), Ok(()));
    assert_eq!(fs.read_file("dst", &container), Ok(data.clone()));
    assert_eq!(fs.read_file("src", &container), Ok(data));
    let dst = entry_of(&fs, "/dst");
    assert_eq!(dst.owned_user(), &Some("alice".to_string()));
    assert_eq!(dst.permission(), &flags);
    assert_eq!(dst.file_type(), FileType::File);
    assert_eq!(dst.parent(), &Some("/".to_string()));
    assert_eq!(dst.pages(), &vec![2048u64, 3072]);
}

#[test]
fn copy_onto_existing_entry_fails() {
    let mut fs = engine_for("alice");
    let mut container = Container::new(LIMIT);
    fs.touch("src").unwrap();
    fs.touch("dst").unwrap();
    fs.write_file("dst", b"keep", &mut container).unwrap();
    assert_eq!(fs.cp("src", "dst", &mut container), Err(FsError::AlreadyExists));
    assert_eq!(fs.read_file("dst", &container), Ok(b"keep".to_vec()));
}

#[test]
fn copy_by_a_stranger_leaves_an_empty_destination() {
    let mut fs = engine_for("bob");
    let mut container = Container::new(LIMIT);
    fs.create_file("src", FileType::File, "alice", None).unwrap();
    assert_eq!(fs.cp("src", "dst", &mut container), Err(FsError::PermissionDenied));
    assert!(fs.is_file_exists("dst"));
    assert_eq!(entry_of(&fs, "/dst").owned_user(), &Some("alice".to_string()));
    assert_eq!(entry_of(&fs, "/dst").size(), 0);
}

#[test]
fn move_copies_then_removes_the_source() {
    let mut fs = engine_for("alice");
    let mut container = Container::new(LIMIT);
    fs.touch("src").unwrap();
    fs.write_file("src", b"payload", &mut container).unwrap();
    assert_eq!(fs.mv("src", "dst", &mut container), Ok(()));
    assert!(!fs.is_file_exists("src"));
    assert_eq!(fs.read_file("dst", &container), Ok(b"payload".to_vec()));
    assert_eq!(fs.save().free_list, vec![0u64]);
}

#[test]
fn failed_removal_after_move_leaves_both() {
    let mut fs = engine_for("bob");
    let mut container = Container::new(LIMIT);
    fs.create_file("/d", FileType::Directory, "bob", None).unwrap();
    fs.create_file("/d/locked", FileType::File, "alice", None).unwrap();
    assert_eq!(fs.mv("/d", "/e", &mut container), Err(FsError::PermissionDenied));
    assert!(fs.is_file_exists("/d"));
    assert!(fs.is_file_exists("/d/locked"));
    assert!(fs.is_file_exists("/e"));
    assert_eq!(entry_of(&fs, "/e").file_type(), FileType::File);
}

#[test]
fn stranger_cannot_write_or_remove() {
    let mut fs = engine_for("bob");
    let mut container = Container::new(LIMIT);
    fs.create_file("theirs", FileType::File, "alice", None).unwrap();
    assert_eq!(
        fs.write_file("theirs", b"x", &mut container),
        Err(FsError::PermissionDenied)
    );
    assert_eq!(fs.write_file("theirs", b"", &mut container), Err(FsError::PermissionDenied));
    assert_eq!(fs.rm("theirs"), Err(FsError::PermissionDenied));
    assert!(fs.is_file_exists("theirs"));
    assert_eq!(entry_of(&fs, "/theirs").size(), 0);
    assert_eq!(container.len(), 0);
}

#[test]
fn owner_can_write_and_remove() {
    let mut fs = engine_for("alice");
    let mut container = Container::new(LIMIT);
    fs.create_file("mine", FileType::File, "alice", None).unwrap();
    assert_eq!(fs.write_file("mine", b"x", &mut container), Ok(()));
    assert_eq!(fs.rm("mine"), Ok(()));
}

#[test]
fn administrator_can_write_and_remove_anything() {
    let mut fs = FileSystem::new(User::new("root", false, false, false));
    let mut container = Container::new(LIMIT);
    fs.create_file("theirs", FileType::File, "alice", None).unwrap();
    assert_eq!(fs.write_file("theirs", b"x", &mut container), Ok(()));
    assert_eq!(fs.read_file("theirs", &container), Ok(b"x".to_vec()));
    assert_eq!(fs.rm("theirs"), Ok(()));
    assert!(!fs.is_file_exists("theirs"));
}

#[test]
fn entry_without_owner_is_for_the_administrator_only() {
    let orphan = FileEntry::new(
        "/orphan".to_string(),
        FileType::File,
        None,
        None,
        0,
        Vec::new(),
        Some("/".to_string()),
    );
    let snapshot = Snapshot {
        files: vec![orphan.clone()],
        next_offset: 0,
        current_path: "/".to_string(),
        free_list: Vec::new(),
    };
    let mut fs = FileSystem::load(snapshot, User::new("bob", true, true, false)).unwrap();
    let mut container = Container::new(LIMIT);
    assert_eq!(fs.write_file("orphan", b"x", &mut container), Err(FsError::PermissionDenied));
    assert_eq!(fs.rm("orphan"), Err(FsError::PermissionDenied));
    let snapshot = Snapshot {
        files: vec![orphan],
        next_offset: 0,
        current_path: "/".to_string(),
        free_list: Vec::new(),
    };
    let mut fs = FileSystem::load(snapshot, User::default()).unwrap();
    assert_eq!(fs.write_file("orphan", b"x", &mut container), Ok(()));
    assert_eq!(fs.rm("orphan"), Ok(()));
}

#[test]
fn walk_through_a_directory_and_back() {
    let mut fs = FileSystem::new(User::default());
    let mut container = Container::new(LIMIT);
    assert_eq!(fs.create_file("/a", FileType::Directory, "root", None), Ok(()));
    assert_eq!(fs.cd("a"), Ok(()));
    assert_eq!(fs.current_path, "/a");
    assert_eq!(fs.create_file("b.txt", FileType::File, "root", None), Ok(()));
    assert_eq!(fs.write_file("b.txt", b"hello", &mut container), Ok(()));
    assert_eq!(fs.read_file("b.txt", &container), Ok(b"hello".to_vec()));
    assert_eq!(fs.cd(".."), Ok(()));
    assert_eq!(fs.current_path, "/");
    assert_eq!(fs.rm("a"), Ok(()));
    assert!(!fs.is_file_exists("/a"));
    assert!(!fs.is_file_exists("/a/b.txt"));
}

#[test]
fn change_into_a_file_is_a_kind_mismatch() {
    let mut fs = engine_for("alice");
    fs.touch("f").unwrap();
    assert_eq!(fs.cd("f"), Err(FsError::WrongEntryKind));
    assert_eq!(fs.cd("/f"), Err(FsError::WrongEntryKind));
    assert_eq!(fs.current_path, "/");
}

#[test]
fn change_directory_dot_and_dot_dot() {
    let mut fs = engine_for("alice");
    assert_eq!(fs.cd("."), Ok(()));
    assert_eq!(fs.current_path, "/");
    assert_eq!(fs.cd(".."), Err(FsError::NotFound));
    fs.mkdir("/a").unwrap();
    fs.mkdir("/a/b").unwrap();
    assert_eq!(fs.cd("/a/b"), Ok(()));
    assert_eq!(fs.current_path().as_str(), "/a/b");
    assert_eq!(fs.cd("."), Ok(()));
    assert_eq!(fs.current_path, "/a/b");
    assert_eq!(fs.cd(".."), Ok(()));
    assert_eq!(fs.current_path, "/a");
    assert_eq!(fs.cd("b"), Ok(()));
    assert_eq!(fs.current_path, "/a/b");
    assert_eq!(fs.cd(".."), Ok(()));
    assert_eq!(fs.cd(".."), Ok(()));
    assert_eq!(fs.current_path, "/");
}

#[test]
fn dot_dot_follows_the_stored_parent() {
    let mut fs = engine_for("alice");
    fs.mkdir("/x/y").unwrap();
    assert_eq!(fs.cd("/x/y"), Ok(()));
    assert_eq!(fs.cd(".."), Ok(()));
    assert_eq!(fs.current_path, "/x");
    assert_eq!(fs.cd(".."), Err(FsError::NotFound));
    assert_eq!(fs.current_path, "/x");
}

#[test]
fn listing_shows_the_children_of_the_cursor() {
    let mut fs = engine_for("alice");
    assert_eq!(fs.ls(), Vec::<u8>::new());
    fs.mkdir("a").unwrap();
    fs.touch("b.txt").unwrap();
    fs.touch("/a/inner").unwrap();
    assert_eq!(
        fs.ls(),
        b"\x1b[34mDirectory\x1b[0m /a/\n\x1b[33mFile\x1b[0m /b.txt".to_vec()
    );
    fs.cd("a").unwrap();
    assert_eq!(fs.ls(), b"\x1b[33mFile\x1b[0m /a/inner".to_vec());
}

#[test]
fn allocation_extends_then_reuses() {
    let mut fs = engine_for("alice");
    let mut container = Container::from_bytes(vec![5u8; 10], LIMIT);
    assert_eq!(fs.allocate_page(1024, &mut container), Ok(0));
    assert_eq!(fs.allocate_page(1024, &mut container), Ok(1024));
    assert_eq!(fs.save().next_offset, 2048);
    assert_eq!(container.len(), 2048);
    assert_eq!(container.read_at(0, 2048), Ok(vec![0u8; 2048]));
    assert_eq!(fs.allocate_page(100, &mut container), Ok(2048));
    assert_eq!(fs.save().next_offset, 2148);
}

#[test]
fn allocation_past_the_limit_fails_and_changes_nothing() {
    let mut fs = engine_for("alice");
    let mut container = Container::new(1500);
    assert_eq!(fs.allocate_page(1024, &mut container), Ok(0));
    assert_eq!(fs.allocate_page(1024, &mut container), Err(FsError::IoFailure));
    assert_eq!(fs.save().next_offset, 1024);
    assert_eq!(container.len(), 1024);
    assert_eq!(fs.allocate_page(476, &mut container), Ok(1024));
}

#[test]
fn allocation_rezeroes_a_reused_page() {
    let mut fs = engine_for("alice");
    let mut container = Container::new(LIMIT);
    fs.touch("f").unwrap();
    fs.write_file("f", &vec![1u8; 1024], &mut container).unwrap();
    fs.rm("f").unwrap();
    assert_eq!(container.read_at(0, 1024), Ok(vec![1u8; 1024]));
    assert_eq!(fs.allocate_page(1024, &mut container), Ok(0));
    assert_eq!(container.read_at(0, 1024), Ok(vec![0u8; 1024]));
    assert!(fs.save().free_list.is_empty());
    assert_eq!(fs.save().next_offset, 1024);
}

#[test]
fn snapshot_round_trip_rebinds_the_user() {
    let mut fs = engine_for("alice");
    let mut container = Container::new(LIMIT);
    fs.touch("f").unwrap();
    fs.write_file("f", &pattern(1500), &mut container).unwrap();
    fs.touch("g").unwrap();
    fs.write_file("g", &pattern(3), &mut container).unwrap();
    fs.rm("g").unwrap();
    fs.mkdir("d").unwrap();
    fs.cd("d").unwrap();
    let mut restored = FileSystem::load(fs.save(), User::new("bob", true, true, false)).unwrap();
    let snapshot = restored.save();
    assert_eq!(snapshot.next_offset, 3072);
    assert_eq!(snapshot.free_list, vec![2048u64]);
    assert_eq!(snapshot.current_path, "/d");
    assert_eq!(snapshot.files.len(), 3);
    assert_eq!(restored.read_file("/f", &container), Ok(pattern(1500)));
    assert_eq!(restored.write_file("/f", b"x", &mut container), Err(FsError::PermissionDenied));
    restored.touch("mine").unwrap();
    assert_eq!(entry_of(&restored, "/d/mine").owned_user(), &Some("bob".to_string()));
}

fn file_with(name: &str, size: u64, pages: Vec<u64>) -> FileEntry {
    FileEntry::new(
        name.to_string(),
        FileType::File,
        None,
        Some("alice".to_string()),
        size,
        pages,
        Some("/".to_string()),
    )
}

fn load_parts(files: Vec<FileEntry>, next_offset: u64, free_list: Vec<u64>) -> Result<FileSystem, FsError> {
    let snapshot = Snapshot { files, next_offset, current_path: "/".to_string(), free_list };
    FileSystem::load(snapshot, User::default())
}

#[test]
fn load_accepts_a_sound_snapshot() {
    let files = vec![file_with("/f", 1025, vec![0, 2048]), file_with("/g", 1, vec![4096])];
    assert!(load_parts(files, 5120, vec![1024, 3072]).is_ok());
}

#[test]
fn load_rejects_overlapping_pages() {
    let files = vec![file_with("/f", 1025, vec![0, 2048]), file_with("/g", 1, vec![2500])];
    assert_eq!(load_parts(files, 8192, vec![]).err(), Some(FsError::IoFailure));
    let files = vec![file_with("/f", 1025, vec![0, 1023])];
    assert_eq!(load_parts(files, 8192, vec![]).err(), Some(FsError::IoFailure));
    let files = vec![file_with("/f", 1, vec![0])];
    assert_eq!(load_parts(files, 8192, vec![1000]).err(), Some(FsError::IoFailure));
    assert_eq!(load_parts(vec![], 8192, vec![0, 0]).err(), Some(FsError::IoFailure));
}

#[test]
fn load_rejects_pages_past_the_high_water_mark() {
    let files = vec![file_with("/f", 1, vec![1024])];
    assert_eq!(load_parts(files, 2047, vec![]).err(), Some(FsError::IoFailure));
    assert_eq!(load_parts(vec![], 1023, vec![0]).err(), Some(FsError::IoFailure));
}

#[test]
fn load_rejects_a_wrong_page_count() {
    let files = vec![file_with("/f", 1025, vec![0])];
    assert_eq!(load_parts(files, 8192, vec![]).err(), Some(FsError::IoFailure));
    let files = vec![file_with("/f", 0, vec![0])];
    assert_eq!(load_parts(files, 8192, vec![]).err(), Some(FsError::IoFailure));
}

#[test]
fn load_rejects_duplicate_names() {
    let files = vec![file_with("/f", 0, vec![]), file_with("/f", 0, vec![])];
    assert_eq!(load_parts(files, 0, vec![]).err(), Some(FsError::IoFailure));
}

#[test]
fn error_messages() {
    assert_eq!(FsError::NotFound.message(), "File or directory not found");
    assert_eq!(FsError::AlreadyExists.message(), "File or Directory already exists");
    assert_eq!(FsError::PermissionDenied.message(), "Permission denied");
    assert_eq!(FsError::WrongEntryKind.message(), "Not a directory");
    assert_eq!(FsError::IoFailure.message(), "Input/output error");
}
