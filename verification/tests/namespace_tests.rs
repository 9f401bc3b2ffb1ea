use kernel::fs::memfs::MemFs;
use kernel::vfs::Namespace;
use kernel::vfs::{FsError, KPath, NodeType, OpenFlags, SeekFrom};

fn p(s: &str) -> KPath {
    KPath::new(s)
}

#[test]
fn empty_namespace_finds_nothing() {
    let mut ns = Namespace::new();
    assert_eq!(ns.stat(&p("/")), Err(FsError::NotFound));
    assert_eq!(ns.mkdir(&p("/a")), Err(FsError::NotFound));
    assert!(matches!(ns.open(&p("/a"), OpenFlags::CREATE()), Err(FsError::NotFound)));
}

#[test]
fn longest_mount_point_wins() {
    let mut ns = Namespace::new();
    ns.mount("/", MemFs::new());
    ns.mount("/mnt", MemFs::new());
    ns.mkdir(&p("/mnt/x")).unwrap();
    ns.mkdir(&p("/y")).unwrap();
    // "/mnt/x" went to the file system mounted at /mnt, as its /x
    let root: Vec<String> = ns.readdir(&p("/mnt")).unwrap().into_iter().map(|e| e.name).collect();
    assert_eq!(root, vec!["x".to_string()]);
    let top: Vec<String> = ns.readdir(&p("/")).unwrap().into_iter().map(|e| e.name).collect();
    assert_eq!(top, vec!["y".to_string()]);
    assert_eq!(ns.stat(&p("/mnt")).unwrap().node_type, NodeType::Dir);
}

#[test]
fn rename_across_mounts_is_not_implemented() {
    let mut ns = Namespace::new();
    ns.mount("/", MemFs::new());
    ns.mount("/mnt", MemFs::new());
    ns.mkdir(&p("/a")).unwrap();
    assert_eq!(ns.rename(&p("/a"), &p("/mnt/a")), Err(FsError::NotImplemented));
    ns.rename(&p("/a"), &p("/b")).unwrap();
    assert_eq!(ns.unlink(&p("/b")), Ok(()));
}

#[test]
fn namespace_read_and_write_through_open_files() {
    let mut ns = Namespace::new();
    ns.mount("/", MemFs::new());
    let mut f = ns.open(&p("/f"), OpenFlags::CREATE()).unwrap();
    assert_eq!(ns.write(&mut f, b"abc").unwrap(), 3);
    let mut g = ns.open(&p("/f"), OpenFlags::READ()).unwrap();
    let mut buf = [0u8; 2];
    assert_eq!(ns.read(&mut g, &mut buf).unwrap(), 2);
    assert_eq!(&buf, b"ab");
    assert_eq!(ns.read(&mut g, &mut buf).unwrap(), 1);
    assert_eq!(buf[0], b'c');
    assert_eq!(ns.read(&mut g, &mut buf).unwrap(), 0);
}

#[test]
fn namespace_seek_and_fstat() {
    let mut ns = Namespace::new();
    ns.mount("/", MemFs::new());
    let mut f = ns.open(&p("/f"), OpenFlags::CREATE()).unwrap();
    ns.write(&mut f, b"hello").unwrap();
    assert_eq!(ns.seek(&mut f, SeekFrom::Start(1)), Ok(1));
    ns.write(&mut f, b"EL").unwrap();
    assert_eq!(ns.seek(&mut f, SeekFrom::Current(-3)), Ok(0));
    let mut buf = [0u8; 5];
    assert_eq!(ns.read(&mut f, &mut buf).unwrap(), 5);
    assert_eq!(&buf, b"hELlo");
    assert_eq!(ns.seek(&mut f, SeekFrom::End(-2)), Ok(3));
    assert_eq!(ns.seek(&mut f, SeekFrom::End(-6)), Err(FsError::InvalidPath));
    let m = ns.fstat(&f).unwrap();
    assert_eq!((m.node_type, m.size), (NodeType::File, 5));
    ns.unlink(&p("/f")).unwrap();
    assert_eq!(ns.seek(&mut f, SeekFrom::End(0)), Err(FsError::NotFound));
    assert_eq!(ns.fstat(&f), Err(FsError::NotFound));
}

#[test]
fn appending_ignores_the_position() {
    let mut ns = Namespace::new();
    ns.mount("/", MemFs::new());
    let mut f = ns.open(&p("/log"), OpenFlags::APPEND()).unwrap();
    ns.write(&mut f, b"ab").unwrap();
    assert_eq!(ns.seek(&mut f, SeekFrom::Start(100)), Ok(100));
    assert_eq!(ns.write(&mut f, b"cd"), Ok(2));
    assert_eq!(ns.fstat(&f).unwrap().size, 4);
    assert_eq!(ns.seek(&mut f, SeekFrom::Current(0)), Ok(4));
}
