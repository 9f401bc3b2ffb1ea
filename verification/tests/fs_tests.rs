use kernel::fs::memfs::{MemFileHandle, MemFs};
use kernel::vfs::{FileHandle, FileSystem, FsError, KPath, NodeType, OpenFlags, SeekFrom};

fn p(s: &str) -> KPath {
    KPath::new(s)
}

fn write_file(fs: &mut MemFs, path: &str, data: &[u8]) {
    let mut h = fs.open(&p(path), OpenFlags::TRUNCATE()).unwrap();
    assert_eq!(h.write(fs, data).unwrap(), data.len());
}

fn read_all(fs: &mut MemFs, path: &str) -> Vec<u8> {
    let mut h: MemFileHandle = fs.open(&p(path), OpenFlags::READ()).unwrap();
    let mut out = Vec::new();
    let mut buf = [0u8; 4];
    loop {
        let n = h.read(fs, &mut buf).unwrap();
        if n == 0 {
            break;
        }
        out.extend_from_slice(&buf[..n]);
    }
    out
}

#[test]
fn new_fs_has_only_root_dir() {
    let fs = MemFs::new();
    let m = fs.stat(&p("/")).unwrap();
    assert_eq!(m.node_type, NodeType::Dir);
    assert_eq!(m.size, 0);
    assert!(fs.readdir(&p("/")).unwrap().is_empty());
    assert_eq!(fs.stat(&p("")).unwrap().node_type, NodeType::Dir);
    assert_eq!(fs.stat(&p(".")).unwrap().node_type, NodeType::Dir);
}

#[test]
fn write_then_read_gives_bytes_back() {
    let mut fs = MemFs::new();
    write_file(&mut fs, "/f.txt", b"hello world");
    assert_eq!(read_all(&mut fs, "/f.txt"), b"hello world".to_vec());
    let m = fs.stat(&p("f.txt")).unwrap();
    assert_eq!(m.node_type, NodeType::File);
    assert_eq!(m.size, 11);
}

#[test]
fn mkdir_then_stat_and_again_fails() {
    let mut fs = MemFs::new();
    fs.mkdir(&p("/d")).unwrap();
    assert_eq!(fs.stat(&p("/d")).unwrap().node_type, NodeType::Dir);
    assert_eq!(fs.mkdir(&p("/d")), Err(FsError::AlreadyExists));
    assert_eq!(fs.mkdir(&p("/x/y")), Err(FsError::NotFound));
    write_file(&mut fs, "/file", b"x");
    assert_eq!(fs.mkdir(&p("/file/sub")), Err(FsError::NotDir));
}

#[test]
fn readdir_lists_in_name_order_with_types() {
    let mut fs = MemFs::new();
    fs.mkdir(&p("/c")).unwrap();
    write_file(&mut fs, "/a", b"1");
    fs.mkdir(&p("/b")).unwrap();
    let es = fs.readdir(&p("/")).unwrap();
    let names: Vec<&str> = es.iter().map(|e| e.name.as_str()).collect();
    assert_eq!(names, vec!["a", "b", "c"]);
    assert_eq!(es[0].node_type, NodeType::File);
    assert_eq!(es[1].node_type, NodeType::Dir);
    assert!(matches!(fs.readdir(&p("/a")), Err(FsError::NotDir)));
    assert!(matches!(fs.readdir(&p("/zz")), Err(FsError::NotFound)));
}

#[test]
fn open_errors() {
    let mut fs = MemFs::new();
    fs.mkdir(&p("/d")).unwrap();
    assert!(matches!(fs.open(&p("/d"), OpenFlags::READ()), Err(FsError::IsDir)));
    assert!(matches!(fs.open(&p("/missing"), OpenFlags::READ()), Err(FsError::NotFound)));
    assert!(matches!(fs.open(&p("/missing"), OpenFlags::WRITE()), Err(FsError::NotFound)));
    assert!(matches!(fs.open(&p("/nodir/f"), OpenFlags::CREATE()), Err(FsError::NotFound)));
}

#[test]
fn truncate_and_append() {
    let mut fs = MemFs::new();
    write_file(&mut fs, "/f", b"abcdef");
    let mut h = fs.open(&p("/f"), OpenFlags::APPEND()).unwrap();
    h.write(&mut fs, b"gh").unwrap();
    assert_eq!(read_all(&mut fs, "/f"), b"abcdefgh".to_vec());
    write_file(&mut fs, "/f", b"xy");
    assert_eq!(read_all(&mut fs, "/f"), b"xy".to_vec());
    let mut w = fs.open(&p("/f"), OpenFlags::WRITE()).unwrap();
    w.write(&mut fs, b"Z").unwrap();
    assert_eq!(read_all(&mut fs, "/f"), b"Zy".to_vec());
}

#[test]
fn seek_and_write_past_end_fills_zeros() {
    let mut fs = MemFs::new();
    write_file(&mut fs, "/f", b"ab");
    let mut h = fs.open(&p("/f"), OpenFlags::WRITE()).unwrap();
    assert_eq!(h.seek(&fs, SeekFrom::Start(4)).unwrap(), 4);
    h.write(&mut fs, b"c").unwrap();
    assert_eq!(read_all(&mut fs, "/f"), vec![b'a', b'b', 0, 0, b'c']);
    assert_eq!(h.seek(&fs, SeekFrom::Current(-2)).unwrap(), 3);
    assert_eq!(h.seek(&fs, SeekFrom::End(-1)).unwrap(), 4);
    assert_eq!(h.seek(&fs, SeekFrom::End(-6)), Err(FsError::InvalidPath));
    assert_eq!(h.seek(&fs, SeekFrom::Start(u64::MAX)), Err(FsError::InvalidPath));
    assert_eq!(h.seek(&fs, SeekFrom::Current(0)).unwrap(), 4);
    let m = h.stat(&fs).unwrap();
    assert_eq!(m.size, 5);
}

#[test]
fn read_past_end_gives_zero() {
    let mut fs = MemFs::new();
    write_file(&mut fs, "/f", b"abc");
    let mut h = fs.open(&p("/f"), OpenFlags::READ()).unwrap();
    h.seek(&fs, SeekFrom::Start(10)).unwrap();
    let mut buf = [7u8; 3];
    assert_eq!(h.read(&fs, &mut buf).unwrap(), 0);
    assert_eq!(buf, [7u8; 3]);
}

#[test]
fn unlink_removes_and_refuses_nonempty_dir() {
    let mut fs = MemFs::new();
    fs.mkdir(&p("/d")).unwrap();
    write_file(&mut fs, "/d/f", b"x");
    assert_eq!(fs.unlink(&p("/d")), Err(FsError::NotEmpty));
    fs.unlink(&p("/d/f")).unwrap();
    assert!(matches!(fs.stat(&p("/d/f")), Err(FsError::NotFound)));
    fs.unlink(&p("/d")).unwrap();
    assert!(fs.readdir(&p("/")).unwrap().is_empty());
    assert_eq!(fs.unlink(&p("/d")), Err(FsError::NotFound));
    assert_eq!(fs.unlink(&p("/")), Err(FsError::NotFound));
}

#[test]
fn rename_moves_node_and_entries() {
    let mut fs = MemFs::new();
    write_file(&mut fs, "/a", b"data");
    fs.mkdir(&p("/d")).unwrap();
    fs.rename(&p("/a"), &p("/d/b")).unwrap();
    assert!(matches!(fs.stat(&p("/a")), Err(FsError::NotFound)));
    assert_eq!(read_all(&mut fs, "/d/b"), b"data".to_vec());
    let names: Vec<String> = fs.readdir(&p("/d")).unwrap().into_iter().map(|e| e.name).collect();
    assert_eq!(names, vec!["b".to_string()]);
    assert_eq!(fs.rename(&p("/d/b"), &p("/d")), Err(FsError::AlreadyExists));
    assert_eq!(fs.rename(&p("/nope"), &p("/x")), Err(FsError::NotFound));
    assert_eq!(fs.rename(&p("/"), &p("/x")), Err(FsError::NotFound));
}

fn snapshot(fs: &MemFs, dirs: &[&str]) -> Vec<(String, Vec<(String, NodeType)>)> {
    dirs.iter()
        .map(|d| {
            let es = match fs.readdir(&p(d)) {
                Ok(es) => es.into_iter().map(|e| (e.name, e.node_type)).collect(),
                Err(_) => Vec::new(),
            };
            (d.to_string(), es)
        })
        .collect()
}

#[test]
fn unlink_undoes_mkdir_and_create() {
    let mut fs = MemFs::new();
    fs.mkdir(&p("/a")).unwrap();
    write_file(&mut fs, "/a/f", b"x");
    let before = snapshot(&fs, &["/", "/a"]);
    fs.mkdir(&p("/a/d")).unwrap();
    fs.unlink(&p("/a/d")).unwrap();
    assert_eq!(snapshot(&fs, &["/", "/a"]), before);
    fs.open(&p("/a/g"), OpenFlags::CREATE()).unwrap();
    fs.unlink(&p("/a/g")).unwrap();
    assert_eq!(snapshot(&fs, &["/", "/a"]), before);
    assert_eq!(fs.stat(&p("/a/g")), Err(FsError::NotFound));
}

#[test]
fn rename_back_restores() {
    let mut fs = MemFs::new();
    fs.mkdir(&p("/a")).unwrap();
    fs.mkdir(&p("/b")).unwrap();
    write_file(&mut fs, "/a/f", b"data");
    let before = snapshot(&fs, &["/", "/a", "/b"]);
    fs.rename(&p("/a/f"), &p("/b/g")).unwrap();
    assert_eq!(read_all(&mut fs, "/b/g"), b"data".to_vec());
    fs.rename(&p("/b/g"), &p("/a/f")).unwrap();
    assert_eq!(snapshot(&fs, &["/", "/a", "/b"]), before);
    assert_eq!(read_all(&mut fs, "/a/f"), b"data".to_vec());
}

#[test]
fn listed_names_exist_after_operations() {
    let mut fs = MemFs::new();
    fs.mkdir(&p("/a")).unwrap();
    fs.mkdir(&p("/a/b")).unwrap();
    write_file(&mut fs, "/a/b/f", b"1");
    write_file(&mut fs, "/x", b"2");
    fs.rename(&p("/x"), &p("/a/y")).unwrap();
    fs.unlink(&p("/a/b/f")).unwrap();
    for d in ["/", "/a", "/a/b"] {
        for e in fs.readdir(&p(d)).unwrap() {
            let child = if d == "/" { format!("/{}", e.name) } else { format!("{}/{}", d, e.name) };
            assert_eq!(fs.stat(&p(&child)).unwrap().node_type, e.node_type);
        }
    }
    let names: Vec<String> = fs.readdir(&p("/a")).unwrap().into_iter().map(|e| e.name).collect();
    assert_eq!(names, vec!["b".to_string(), "y".to_string()]);
    assert!(fs.readdir(&p("/a/b")).unwrap().is_empty());
    assert_eq!(fs.stat(&p("/x")), Err(FsError::NotFound));
}
