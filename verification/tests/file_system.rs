use paxos::contracts::OpenOptions;
use paxos::simulation::file_system::{FakeFileType, IoErrorKind, SimFile, SimFileSystem};

fn options(create: bool, write: bool, read: bool, truncate: bool) -> OpenOptions {
    OpenOptions { create, write, read, truncate }
}

fn read_to_string(fs: &SimFileSystem, file: &mut SimFile) -> String {
    let mut out = Vec::new();
    loop {
        let mut buf = vec![0u8; 4];
        let n = fs.read(file, &mut buf).unwrap();
        if n == 0 {
            break;
        }
        out.extend_from_slice(&buf[..n]);
    }
    String::from_utf8(out).unwrap()
}

#[test]
fn restart() {
    let mut fs = SimFileSystem::new();

    // Create a file.
    let mut file = fs.open("./a.txt", options(true, true, true, false)).unwrap();

    // Write to the file.
    fs.write(&mut file, "hello world".as_ref()).unwrap();

    // Pretend the computer was restarted before the file was synced to disk.
    fs.restart();

    // Reopen the file.
    let mut file = fs.open("./a.txt", options(true, true, true, false)).unwrap();

    // Ensure the contents were lost because they were in the page cache.
    let s = read_to_string(&fs, &mut file);
    assert!(s.is_empty());

    fs.write(&mut file, "hello world".as_ref()).unwrap();

    // Sync file to disk.
    fs.sync_all(&file).unwrap();

    // Pretend the computer was restarted after the file was synced to disk.
    fs.restart();

    // Open the file.
    let mut file = fs.open("./a.txt", options(true, true, true, false)).unwrap();

    // Ensure the data wasn't lost.
    let s = read_to_string(&fs, &mut file);
    assert_eq!("hello world", s);
}

#[test]
fn test_sync_all_dir() {
    let mut fs = SimFileSystem::new();
    fs.create_dir_all("./a/b/c").unwrap();
    let file = fs.open("./a/b/c", options(false, false, true, false)).unwrap();
    fs.sync_all(&file).unwrap();
    fs.restart();
    assert!(fs.cache_contains("./a/b/c"));
}

#[test]
fn new_file_system_has_tmp() {
    let fs = SimFileSystem::new();
    assert!(fs.cache_contains("tmp"));
    assert!(fs.cache_contains("tmp/"));
    assert!(!fs.cache_contains("./tmp"));
}

#[test]
fn open_needs_parent_directory() {
    let mut fs = SimFileSystem::new();
    assert_eq!(fs.open("missing/file", options(true, true, true, false)).err(), Some(IoErrorKind::NotFound));
    assert_eq!(fs.open("tmp/file", options(false, false, true, false)).err(), Some(IoErrorKind::NotFound));
    assert!(fs.open("tmp/file", options(true, true, false, false)).is_ok());
    assert!(fs.open("file", options(true, true, false, false)).is_ok());
}

#[test]
fn directory_cannot_be_opened_for_writing() {
    let mut fs = SimFileSystem::new();
    assert_eq!(fs.open("tmp", options(false, true, false, false)).err(), Some(IoErrorKind::IsADirectory));
    let mut dir = fs.open("tmp", options(false, false, true, false)).unwrap();
    let mut buf = vec![0u8; 8];
    assert_eq!(fs.read(&mut dir, &mut buf).err(), Some(IoErrorKind::IsADirectory));
}

#[test]
fn read_and_write_need_their_options() {
    let mut fs = SimFileSystem::new();
    let mut w = fs.open("tmp/f", options(true, true, false, false)).unwrap();
    let mut buf = vec![0u8; 8];
    assert_eq!(fs.read(&mut w, &mut buf).err(), Some(IoErrorKind::Uncategorized));
    let mut r = fs.open("tmp/f", options(false, false, true, false)).unwrap();
    assert_eq!(fs.write(&mut r, b"x").err(), Some(IoErrorKind::Uncategorized));
}

#[test]
fn write_past_end_fills_with_zeros_and_read_fills_front_of_buffer() {
    let mut fs = SimFileSystem::new();
    let mut f = fs.open("tmp/f", options(true, true, true, false)).unwrap();
    assert_eq!(fs.write(&mut f, b"ab"), Ok(2));
    assert_eq!(fs.metadata(&f).unwrap().len(), 2);
    let mut g = fs.open("tmp/f", options(false, true, true, false)).unwrap();
    let mut buf = vec![9u8; 5];
    assert_eq!(fs.read(&mut g, &mut buf), Ok(2));
    assert_eq!(buf, vec![b'a', b'b', 9, 9, 9]);
    assert_eq!(fs.read(&mut g, &mut buf), Ok(0));
    assert_eq!(fs.write(&mut g, b"cd"), Ok(2));
    assert_eq!(fs.metadata(&g).unwrap().len(), 4);
    assert!(fs.metadata(&g).unwrap().len() != 0);
    assert!(!fs.metadata(&g).unwrap().is_empty());
    let mut h = fs.open("tmp/f", options(false, false, true, false)).unwrap();
    let mut all = vec![0u8; 10];
    assert_eq!(fs.read(&mut h, &mut all), Ok(4));
    assert_eq!(&all[..4], b"abcd");
}

#[test]
fn truncate_empties_the_file() {
    let mut fs = SimFileSystem::new();
    let mut f = fs.open("tmp/f", options(true, true, false, false)).unwrap();
    fs.write(&mut f, b"hello").unwrap();
    let g = fs.open("tmp/f", options(false, true, false, true)).unwrap();
    assert_eq!(fs.metadata(&g).unwrap().len(), 0);
    assert!(fs.metadata(&f).unwrap().is_empty());
    assert_eq!(fs.flush(&g), Ok(()));
}

#[test]
fn create_dir_all_reports_files_in_the_way() {
    let mut fs = SimFileSystem::new();
    fs.open("tmp/f", options(true, true, false, false)).unwrap();
    assert_eq!(fs.create_dir_all("tmp/f"), Err(IoErrorKind::AlreadyExists));
    assert_eq!(fs.create_dir_all("tmp/f/g"), Err(IoErrorKind::NotADirectory));
    assert_eq!(fs.create_dir_all("tmp/d/e"), Ok(()));
    assert!(fs.cache_contains("tmp/d"));
    assert!(fs.cache_contains("tmp/d/e"));
    assert_eq!(fs.create_dir_all("tmp/d/../x"), Ok(()));
    assert!(fs.cache_contains("tmp/d/x"));
}

#[test]
fn rename_moves_a_directory_and_its_children() {
    let mut fs = SimFileSystem::new();
    fs.create_dir_all("/r/b").unwrap();
    let mut f = fs.open("/r/b/filename", options(true, true, true, false)).unwrap();
    fs.write(&mut f, b"data").unwrap();
    assert_eq!(fs.rename("/r/b", "/r/a"), Ok(()));
    assert!(!fs.cache_contains("/r/b"));
    assert!(!fs.cache_contains("/r/b/filename"));
    assert!(fs.cache_contains("/r/a"));
    assert!(fs.cache_contains("/r/a/filename"));
    let mut g = fs.open("/r/a/filename", options(false, true, true, false)).unwrap();
    let mut buf = vec![0u8; 4];
    assert_eq!(fs.read(&mut g, &mut buf), Ok(4));
    assert_eq!(&buf, b"data");
}

#[test]
fn rename_errors() {
    let mut fs = SimFileSystem::new();
    fs.create_dir_all("/r/a/x").unwrap();
    fs.create_dir_all("/r/b").unwrap();
    assert_eq!(fs.rename("/r/b", "/nope/c"), Err(IoErrorKind::NotFound));
    assert_eq!(fs.rename("/r/missing", "/r/c"), Err(IoErrorKind::NotFound));
    assert_eq!(fs.rename("/r/b", "/r/a"), Err(IoErrorKind::DirectoryNotEmpty));
    assert_eq!(fs.rename("/r/b", "/r//b"), Ok(()));
    assert!(fs.cache_contains("/r/b"));
}

#[test]
fn unsynced_file_is_lost_and_synced_file_survives() {
    let mut fs = SimFileSystem::new();
    let mut a = fs.open("tmp/a", options(true, true, true, false)).unwrap();
    let mut b = fs.open("tmp/b", options(true, true, true, false)).unwrap();
    fs.write(&mut a, b"1").unwrap();
    fs.write(&mut b, b"2").unwrap();
    fs.sync_all(&a).unwrap();
    fs.restart();
    assert!(fs.cache_contains("tmp/a"));
    assert!(!fs.cache_contains("tmp/b"));
    assert!(!fs.cache_contains("tmp"));
    // The directory was never synced, so its file cannot be opened through it.
    assert_eq!(fs.open("tmp/a", options(false, false, true, false)).err(), Some(IoErrorKind::NotFound));
    fs.create_dir_all("tmp").unwrap();
    let mut a2 = fs.open("tmp/a", options(false, false, true, false)).unwrap();
    assert_eq!(read_to_string(&fs, &mut a2), "1");
}

#[test]
fn sync_of_a_file_whose_path_is_gone_fails() {
    let mut fs = SimFileSystem::new();
    let f = fs.open("tmp/a", options(true, true, true, false)).unwrap();
    fs.restart();
    assert_eq!(fs.sync_all(&f), Err(IoErrorKind::Uncategorized));
}

#[test]
fn fake_file_duplicate_keeps_contents() {
    let f = paxos::simulation::file_system::FakeFile {
        typ: FakeFileType::Data,
        path: "p".to_string(),
        data: vec![1, 2, 3],
    };
    let g = f.duplicate();
    assert_eq!(g.typ, FakeFileType::Data);
    assert_eq!(g.path, "p");
    assert_eq!(g.data, vec![1, 2, 3]);
}

#[test]
fn default_file_system_is_a_new_one() {
    let fs = SimFileSystem::default();
    assert!(fs.cache_contains("tmp"));
    assert!(!fs.cache_contains("a"));
}
