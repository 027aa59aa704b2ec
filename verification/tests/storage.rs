use fs_simulator::container::Container;
use fs_simulator::error::FsError;
use fs_simulator::filesystem::FileSystem;
use fs_simulator::stdio::Stdio;
use fs_simulator::user::{Permissions, User, Users};

#[test]
fn container_starts_empty() {
    let container = Container::new(64);
    assert_eq!(container.len(), 0);
    assert_eq!(container.max_len(), 64);
    assert_eq!(container.into_bytes(), Vec::<u8>::new());
}

#[test]
fn container_lends_its_bytes() {
    let mut container = Container::from_bytes(vec![1, 2], 8);
    container.write_at(1, &[5, 6]).unwrap();
    assert_eq!(container.bytes(), &vec![1u8, 5, 6]);
}

#[test]
fn container_write_inside_keeps_the_rest() {
    let mut container = Container::from_bytes(vec![1, 2, 3, 4, 5], 64);
    assert_eq!(container.write_at(1, &[9, 8]), Ok(()));
    assert_eq!(container.into_bytes(), vec![1, 9, 8, 4, 5]);
}

#[test]
fn container_write_past_the_end_fills_with_zeros() {
    let mut container = Container::from_bytes(vec![1, 2], 64);
    assert_eq!(container.write_at(4, &[7, 7]), Ok(()));
    assert_eq!(container.len(), 6);
    assert_eq!(container.into_bytes(), vec![1, 2, 0, 0, 7, 7]);
}

#[test]
fn container_write_across_the_end_grows() {
    let mut container = Container::from_bytes(vec![1, 2, 3], 64);
    assert_eq!(container.write_at(2, &[7, 8, 9]), Ok(()));
    assert_eq!(container.into_bytes(), vec![1, 2, 7, 8, 9]);
}

#[test]
fn container_write_past_the_limit_fails() {
    let mut container = Container::from_bytes(vec![1, 2, 3], 4);
    assert_eq!(container.write_at(3, &[7, 8]), Err(FsError::IoFailure));
    assert_eq!(container.write_at(u64::MAX, &[7]), Err(FsError::IoFailure));
    assert_eq!(container.len(), 3);
    assert_eq!(container.write_at(3, &[7]), Ok(()));
    assert_eq!(container.into_bytes(), vec![1, 2, 3, 7]);
}

#[test]
fn container_empty_write_is_nothing() {
    let mut container = Container::from_bytes(vec![1], 4);
    assert_eq!(container.write_at(100, &[]), Ok(()));
    assert_eq!(container.zero_fill(100, 0), Ok(()));
    assert_eq!(container.into_bytes(), vec![1]);
}

#[test]
fn container_zero_fill() {
    let mut container = Container::from_bytes(vec![1, 2, 3, 4], 8);
    assert_eq!(container.zero_fill(2, 4), Ok(()));
    assert_eq!(container.zero_fill(6, 3), Err(FsError::IoFailure));
    assert_eq!(container.into_bytes(), vec![1, 2, 0, 0, 0, 0]);
}

#[test]
fn container_read() {
    let container = Container::from_bytes(vec![1, 2, 3, 4], 8);
    assert_eq!(container.read_at(1, 2), Ok(vec![2, 3]));
    assert_eq!(container.read_at(0, 4), Ok(vec![1, 2, 3, 4]));
    assert_eq!(container.read_at(9, 0), Ok(vec![]));
    assert_eq!(container.read_at(3, 2), Err(FsError::IoFailure));
    assert_eq!(container.read_at(u64::MAX, 1), Err(FsError::IoFailure));
}

#[test]
fn stdio_print_takes_and_trims_the_output() {
    let mut io = Stdio::new();
    io.write(b"\nhello\n");
    io.write(b"world\n");
    assert_eq!(io.print(), b"hello\nworld".to_vec());
    assert_eq!(io.print(), Vec::<u8>::new());
}

#[test]
fn stdio_trims_one_line_feed_at_each_end_only() {
    let mut io = Stdio::new();
    io.write(b"\n\na\n\n");
    assert_eq!(io.print(), b"\na\n".to_vec());
    io.write(b"\n");
    assert_eq!(io.print(), Vec::<u8>::new());
    io.write(b"\n\n");
    assert_eq!(io.print(), Vec::<u8>::new());
    io.write(b"plain");
    assert_eq!(io.print(), b"plain".to_vec());
}

#[test]
fn stdio_error_is_a_buffer_of_its_own() {
    let mut io = Stdio::new();
    io.error(b"bad\n");
    io.write(b"good");
    assert_eq!(io.print_error(), b"bad".to_vec());
    assert_eq!(io.print_error(), Vec::<u8>::new());
    assert_eq!(io.print(), b"good".to_vec());
}

#[test]
fn stdio_read_file_replaces_the_output() {
    let mut fs = FileSystem::new(User::default());
    let mut container = Container::new(4096);
    fs.touch("f").unwrap();
    fs.write_file("f", b"content\n", &mut container).unwrap();
    let mut io = Stdio::new();
    io.write(b"stale");
    assert_eq!(io.read_file("f", &container, &fs), Ok(()));
    assert_eq!(io.print(), b"content".to_vec());
    io.write(b"kept");
    assert_eq!(io.read_file("missing", &container, &fs), Err(FsError::NotFound));
    assert_eq!(io.print(), b"kept".to_vec());
}

#[test]
fn user_holds_name_and_capabilities() {
    let user = User::new("dana", true, false, true);
    assert_eq!(user.get_user_name(), "dana");
    assert_eq!(
        user.permissions,
        Permissions { can_read: true, can_write: false, can_execute: true }
    );
    assert_eq!(user.permissions(), user.permissions);
    assert!(!user.is_admin());
    let copy = user.clone();
    assert_eq!(copy.get_user_name(), "dana");
    assert_eq!(copy.permissions, user.permissions);
}

#[test]
fn default_user_is_the_administrator() {
    let user = User::default();
    assert_eq!(user.get_user_name(), "root");
    assert!(user.is_admin());
    assert_eq!(
        user.permissions,
        Permissions { can_read: true, can_write: true, can_execute: true }
    );
}

#[test]
fn users_keep_the_order_of_addition() {
    let mut users = Users::new();
    assert!(users.get_users().is_empty());
    users.add_user(User::new("a", true, true, false));
    users.add_user(User::new("b", false, true, false));
    let list = users.get_users();
    assert_eq!(list.len(), 2);
    assert_eq!(list[0].get_user_name(), "a");
    assert_eq!(list[1].get_user_name(), "b");
    assert!(!list[1].permissions.can_read);
    let copy = users.clone();
    assert_eq!(copy.get_users().len(), 2);
    assert_eq!(copy.get_users()[1].get_user_name(), "b");
}
