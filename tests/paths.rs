use os_kernel::memory_set::UserBuffer;
use os_kernel::path::{resolve_path, OpenFlags};

fn resolve(rel: &str, base: &str) -> String {
    String::from_utf8(resolve_path(rel, base)).unwrap()
}

#[test]
fn relative_paths_start_from_base() {
    assert_eq!(resolve("b/c", "/a"), "/a/b/c");
    assert_eq!(resolve("./b//c/", "/a/"), "/a/b/c");
    assert_eq!(resolve("", "/a/b"), "/a/b");
}

#[test]
fn dot_dot_goes_up_but_not_past_root() {
    assert_eq!(resolve("../x", "/a/b"), "/a/x");
    assert_eq!(resolve("../../../x", "/a"), "/x");
    assert_eq!(resolve("..", "/"), "/");
}

#[test]
fn absolute_paths_ignore_base() {
    assert_eq!(resolve("/etc/./passwd", "/home/user"), "/etc/passwd");
    assert_eq!(resolve("/", "/home"), "/");
}

#[test]
fn open_flags_read_write() {
    assert_eq!(OpenFlags { bits: OpenFlags::RDONLY }.read_write(), (true, false));
    assert_eq!(OpenFlags { bits: OpenFlags::WRONLY }.read_write(), (false, true));
    assert_eq!(OpenFlags { bits: OpenFlags::RDWR | OpenFlags::CREATE }.read_write(), (true, true));
    assert_eq!(OpenFlags { bits: OpenFlags::WRONLY | OpenFlags::RDWR }.read_write(), (false, true));
}

#[test]
fn user_buffer_length_sums_pieces() {
    let b = UserBuffer::new(vec![vec![1, 2, 3], vec![], vec![4; 10]]);
    assert_eq!(b.len(), 13);
    assert_eq!(UserBuffer::new(Vec::new()).len(), 0);
}
