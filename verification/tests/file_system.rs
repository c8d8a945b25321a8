use metaros::file_system::FileSystem;

#[test]
fn test_file_system() {
    let mut fs = FileSystem::new();

    fs.create_directory("/home").unwrap();
    fs.create_directory("/home/user").unwrap();
    fs.create_file("/home/user/test.txt", b"Hello, world!".to_vec()).unwrap();

    assert!(fs.create_directory("/home/user/documents").is_ok());
    assert!(fs.create_file("/home/user/documents/doc.txt", b"Document content".to_vec()).is_ok());

    assert_eq!(fs.read_file("/home/user/test.txt").unwrap(), &b"Hello, world!".to_vec());
    assert_eq!(fs.read_file("/home/user/documents/doc.txt").unwrap(), &b"Document content".to_vec());

    assert!(fs.read_file("/nonexistent/file.txt").is_err());
    assert!(fs.create_file("/nonexistent/dir/file.txt", vec![]).is_err());
}

#[test]
fn test_file_overwrite() {
    let mut fs = FileSystem::new();
    fs.create_file("/note", b"first".to_vec()).unwrap();
    fs.create_file("/note", b"second".to_vec()).unwrap();
    assert_eq!(fs.read_file("/note").unwrap(), &b"second".to_vec());
}

#[test]
fn test_read_directory_as_file_fails() {
    let mut fs = FileSystem::new();
    fs.create_directory("/home").unwrap();
    assert!(fs.read_file("/home").is_err());
    assert!(fs.read_file("/missing").is_err());
}

#[test]
fn test_sibling_files_preserved() {
    let mut fs = FileSystem::new();
    fs.create_directory("/data").unwrap();
    fs.create_file("/data/a", b"alpha".to_vec()).unwrap();
    fs.create_file("/data/b", b"beta".to_vec()).unwrap();
    fs.create_file("/data/a", b"replaced".to_vec()).unwrap();
    assert_eq!(fs.read_file("/data/a").unwrap(), &b"replaced".to_vec());
    assert_eq!(fs.read_file("/data/b").unwrap(), &b"beta".to_vec());
}

#[test]
fn test_file_without_leading_slash() {
    let mut fs = FileSystem::new();
    // A path with no slash names an entry of the root directory itself.
    fs.create_file("rootfile", b"x".to_vec()).unwrap();
    assert_eq!(fs.read_file("rootfile").unwrap(), &b"x".to_vec());
    assert_eq!(fs.read_file("/rootfile").unwrap(), &b"x".to_vec());
}
