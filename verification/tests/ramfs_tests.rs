use lukes_os::ramfs::{compare_names, NameOrder, RamFs};
use lukes_os::vfs::{FileType, VfsError};

#[test]
fn new_fs_has_empty_root_directory() {
    let fs = RamFs::new();
    let root = fs.root();
    assert_eq!(root, 0);
    let m = fs.metadata(root).unwrap();
    assert_eq!(m.file_type, FileType::Directory);
    assert_eq!(m.size, 0);
    assert_eq!(fs.readdir(root).unwrap(), Vec::<String>::new());
}

#[test]
fn write_then_read_gives_back_the_bytes() {
    let mut fs = RamFs::new();
    let root = fs.root();
    let tmp = fs.mkdir(root, "tmp").unwrap();
    let hello = fs.create(tmp, "hello.txt").unwrap();
    assert_eq!(fs.write(hello, 0, b"Hello from RamFS!").unwrap(), 17);
    let mut buf = [0u8; 20];
    let n = fs.read(hello, 0, &mut buf).unwrap();
    assert_eq!(n, 17);
    assert_eq!(&buf[..n], b"Hello from RamFS!");
    assert_eq!(&buf[n..], &[0u8, 0, 0]);
    let m = fs.metadata(hello).unwrap();
    assert_eq!(m.file_type, FileType::File);
    assert_eq!(m.size, 17);
}

#[test]
fn read_is_limited_by_buffer_and_file_end() {
    let mut fs = RamFs::new();
    let f = fs.create(0, "f").unwrap();
    fs.write(f, 0, b"abcdef").unwrap();
    let mut small = [9u8; 4];
    assert_eq!(fs.read(f, 1, &mut small).unwrap(), 4);
    assert_eq!(small, *b"bcde");
    let mut big = [9u8; 8];
    assert_eq!(fs.read(f, 4, &mut big).unwrap(), 2);
    assert_eq!(big, [b'e', b'f', 9, 9, 9, 9, 9, 9]);
}

#[test]
fn read_at_or_past_end_reads_nothing() {
    let mut fs = RamFs::new();
    let f = fs.create(0, "f").unwrap();
    fs.write(f, 0, b"abc").unwrap();
    let mut buf = [7u8; 4];
    assert_eq!(fs.read(f, 3, &mut buf).unwrap(), 0);
    assert_eq!(fs.read(f, 100, &mut buf).unwrap(), 0);
    assert_eq!(buf, [7u8; 4]);
}

#[test]
fn write_past_end_fills_the_gap_with_zeros() {
    let mut fs = RamFs::new();
    let f = fs.create(0, "f").unwrap();
    fs.write(f, 0, b"ab").unwrap();
    assert_eq!(fs.write(f, 5, b"xy").unwrap(), 2);
    assert_eq!(fs.metadata(f).unwrap().size, 7);
    let mut buf = [1u8; 7];
    assert_eq!(fs.read(f, 0, &mut buf).unwrap(), 7);
    assert_eq!(buf, [b'a', b'b', 0, 0, 0, b'x', b'y']);
}

#[test]
fn overwrite_in_the_middle_keeps_the_rest() {
    let mut fs = RamFs::new();
    let f = fs.create(0, "f").unwrap();
    fs.write(f, 0, b"abcdef").unwrap();
    fs.write(f, 2, b"XY").unwrap();
    assert_eq!(fs.metadata(f).unwrap().size, 6);
    let mut buf = [0u8; 6];
    fs.read(f, 0, &mut buf).unwrap();
    assert_eq!(buf, *b"abXYef");
}

#[test]
fn empty_write_changes_nothing_but_may_grow() {
    let mut fs = RamFs::new();
    let f = fs.create(0, "f").unwrap();
    assert_eq!(fs.write(f, 3, b"").unwrap(), 0);
    assert_eq!(fs.metadata(f).unwrap().size, 3);
}

#[test]
fn lookup_finds_created_entries() {
    let mut fs = RamFs::new();
    let a = fs.create(0, "a").unwrap();
    let d = fs.mkdir(0, "dir").unwrap();
    assert_eq!(fs.lookup(0, "a").unwrap(), a);
    assert_eq!(fs.lookup(0, "dir").unwrap(), d);
    assert!(matches!(fs.lookup(0, "missing"), Err(VfsError::NotFound)));
    let inner = fs.create(d, "a").unwrap();
    assert_ne!(inner, a);
    assert_eq!(fs.lookup(d, "a").unwrap(), inner);
    assert_eq!(fs.lookup(0, "a").unwrap(), a);
}

#[test]
fn create_of_existing_name_fails() {
    let mut fs = RamFs::new();
    fs.create(0, "x").unwrap();
    assert!(matches!(fs.create(0, "x"), Err(VfsError::AlreadyExists)));
    assert!(matches!(fs.mkdir(0, "x"), Err(VfsError::AlreadyExists)));
    assert_eq!(fs.readdir(0).unwrap(), vec!["x".to_string()]);
}

#[test]
fn directory_operations_on_a_file_fail() {
    let mut fs = RamFs::new();
    let f = fs.create(0, "f").unwrap();
    assert!(matches!(fs.lookup(f, "x"), Err(VfsError::NotADirectory)));
    assert!(matches!(fs.create(f, "x"), Err(VfsError::NotADirectory)));
    assert!(matches!(fs.mkdir(f, "x"), Err(VfsError::NotADirectory)));
    assert!(matches!(fs.readdir(f), Err(VfsError::NotADirectory)));
}

#[test]
fn file_operations_on_a_directory_fail() {
    let mut fs = RamFs::new();
    let d = fs.mkdir(0, "d").unwrap();
    let mut buf = [3u8; 2];
    assert!(matches!(fs.read(d, 0, &mut buf), Err(VfsError::IsADirectory)));
    assert_eq!(buf, [3u8; 2]);
    assert!(matches!(fs.write(d, 0, b"zz"), Err(VfsError::IsADirectory)));
    assert_eq!(fs.metadata(d).unwrap().file_type, FileType::Directory);
}

#[test]
fn readdir_lists_names_in_byte_order() {
    let mut fs = RamFs::new();
    for name in ["tmp", "dev", "proc", "Zeta", "é", "a", "ab"] {
        fs.mkdir(0, name).unwrap();
    }
    assert_eq!(
        fs.readdir(0).unwrap(),
        vec!["Zeta", "a", "ab", "dev", "proc", "tmp", "é"].into_iter().map(String::from).collect::<Vec<_>>()
    );
}

#[test]
fn names_compare_by_bytes() {
    assert_eq!(compare_names("a", "b"), NameOrder::Less);
    assert_eq!(compare_names("b", "a"), NameOrder::Greater);
    assert_eq!(compare_names("ab", "ab"), NameOrder::Equal);
    assert_eq!(compare_names("ab", "abc"), NameOrder::Less);
    assert_eq!(compare_names("", "a"), NameOrder::Less);
    assert_eq!(compare_names("Z", "a"), NameOrder::Less);
    assert_eq!(compare_names("é", "z"), NameOrder::Greater);
}

#[test]
fn write_to_a_directory_fails_at_any_offset() {
    let mut fs = RamFs::new();
    let d = fs.mkdir(0, "d").unwrap();
    assert!(matches!(fs.write(d, u64::MAX, b"zz"), Err(VfsError::IsADirectory)));
    let mut buf = [0u8; 2];
    assert!(matches!(fs.read(d, u64::MAX, &mut buf), Err(VfsError::IsADirectory)));
}
