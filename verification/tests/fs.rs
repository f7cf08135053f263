use preproc::fs::{FileSystem, FsError, InMemoryFs};

#[test]
fn in_memory_fs_read_string_succeeds_for_existing_path() {
    let mut fs = InMemoryFs::new();
    let path = "/file.txt";
    let content = "hello";
    fs.write_string(path, content).unwrap();

    let result = fs.read_to_string(path);

    assert_eq!(result.unwrap(), content);
}

#[test]
fn in_memory_fs_read_string_fails_for_nonexistent_path() {
    let fs = InMemoryFs::new();
    let path = "/nonexistent.txt";

    let result = fs.read_to_string(path);

    assert!(result.is_err());
    assert_eq!(result.unwrap_err(), FsError::NotFound);
}

#[test]
fn in_memory_fs_write_string_makes_content_readable() {
    let mut fs = InMemoryFs::new();
    let path = "/new_file.txt";
    let content = "new content";

    let write_result = fs.write_string(path, content);

    assert!(write_result.is_ok());
    assert_eq!(fs.read_to_string(path).unwrap(), content);
}

#[test]
fn in_memory_fs_overwrite_replaces_previous_content() {
    let mut fs = InMemoryFs::new();
    let path = "/file.txt";
    fs.write_string(path, "first").unwrap();
    fs.write_string(path, "second").unwrap();

    assert_eq!(fs.read_to_string(path).unwrap(), "second");
}

#[test]
fn in_memory_fs_keeps_paths_apart() {
    let mut fs = InMemoryFs::new();
    fs.write_string("/a.txt", "alpha").unwrap();
    fs.write_string("/b.txt", "beta").unwrap();

    assert_eq!(fs.read_to_string("/a.txt").unwrap(), "alpha");
    assert_eq!(fs.read_to_string("/b.txt").unwrap(), "beta");
}
