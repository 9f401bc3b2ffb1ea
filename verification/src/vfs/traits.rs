//! The virtual file system's vocabulary: errors, node types, metadata,
//! directory entries, open flags, seek positions, paths, and the traits
//! that a file system and its open files implement.
use vstd::prelude::*;

use crate::strs::{rfind_char, rfind_in, to_chars, trim_end_char, trim_end_len, string_of};

verus! {

/// Errors reported by file system operations.
#[derive(Debug, Clone, Copy, PartialEq, Eq, Structural)]
pub enum FsError {
    NotFound,
    AlreadyExists,
    NotDir,
    IsDir,
    PermissionDenied,
    InvalidPath,
    NotEmpty,
    IoError,
    BadFileDescriptor,
    NotImplemented,
}

pub type Result<T> = core::result::Result<T, FsError>;

#[derive(Debug, Clone, Copy, PartialEq, Eq, Structural)]
pub enum NodeType {
    File,
    Dir,
}

/// What `stat` reports of a node.
#[derive(Debug, Clone, Copy, PartialEq, Eq, Structural)]
pub struct Metadata {
    pub node_type: NodeType,
    pub size: u64,
}

/// One entry of a directory listing.
#[derive(Debug, Clone)]
pub struct DirEntry {
    pub name: String,
    pub node_type: NodeType,
}

impl View for DirEntry {
    type V = (Seq<char>, NodeType);

    open spec fn view(&self) -> (Seq<char>, NodeType) {
        (self.name@, self.node_type)
    }
}

/// How a file is opened.
#[derive(Debug, Clone, Copy, PartialEq, Eq, Structural)]
pub struct OpenFlags {
    pub read: bool,
    pub write: bool,
    pub create: bool,
    pub truncate: bool,
    pub append: bool,
}

impl OpenFlags {
    /// Read only.
    #[allow(non_snake_case)]
    pub fn READ() -> (f: Self)
        ensures
            f == (OpenFlags { read: true, write: false, create: false, truncate: false, append: false }),
    {
        OpenFlags { read: true, write: false, create: false, truncate: false, append: false }
    }

    /// Write to an existing file.
    #[allow(non_snake_case)]
    pub fn WRITE() -> (f: Self)
        ensures
            f == (OpenFlags { read: false, write: true, create: false, truncate: false, append: false }),
    {
        OpenFlags { read: false, write: true, create: false, truncate: false, append: false }
    }

    /// Write, creating the file if it is missing.
    #[allow(non_snake_case)]
    pub fn CREATE() -> (f: Self)
        ensures
            f == (OpenFlags { read: false, write: true, create: true, truncate: false, append: false }),
    {
        OpenFlags { read: false, write: true, create: true, truncate: false, append: false }
    }

    /// Write from empty, creating the file if it is missing.
    #[allow(non_snake_case)]
    pub fn TRUNCATE() -> (f: Self)
        ensures
            f == (OpenFlags { read: false, write: true, create: true, truncate: true, append: false }),
    {
        OpenFlags { read: false, write: true, create: true, truncate: true, append: false }
    }

    /// Write at the end, creating the file if it is missing.
    #[allow(non_snake_case)]
    pub fn APPEND() -> (f: Self)
        ensures
            f == (OpenFlags { read: false, write: true, create: true, truncate: false, append: true }),
    {
        OpenFlags { read: false, write: true, create: true, truncate: false, append: true }
    }
}

/// Where a seek is measured from.
#[derive(Debug, Clone, Copy, PartialEq, Eq, Structural)]
pub enum SeekFrom {
    Start(u64),
    Current(i64),
    End(i64),
}

// ---------------------------------------------------------------------
// Paths
// ---------------------------------------------------------------------

/// The parent of a path: the part before its last `/`, trailing slashes
/// ignored; `/` for a top-level name; none for a path with no `/` left.
pub open spec fn path_parent(s: Seq<char>) -> Option<Seq<char>> {
    let t = trim_end_char(s, '/');
    match rfind_char(t, '/') {
        Some(i) => if i == 0 {
            Some(seq!['/'])
        } else {
            Some(t.take(i))
        },
        None => None,
    }
}

/// The last component of a path, trailing slashes ignored.
pub open spec fn path_name(s: Seq<char>) -> Seq<char> {
    let t = trim_end_char(s, '/');
    match rfind_char(t, '/') {
        Some(i) => t.skip(i + 1),
        None => t,
    }
}

/// `other` if it is absolute, else `other` appended to `base` with one `/`
/// between them.
pub open spec fn path_join(base: Seq<char>, other: Seq<char>) -> Seq<char> {
    if other.len() > 0 && other[0] == '/' {
        other
    } else if base.len() > 0 && base.last() == '/' {
        base + other
    } else {
        base + seq!['/'] + other
    }
}

/// A path.
#[derive(Debug, Clone, PartialEq, Eq, PartialOrd, Ord)]
pub struct KPath(pub String);

impl View for KPath {
    type V = Seq<char>;

    open spec fn view(&self) -> Seq<char> {
        self.0@
    }
}

impl KPath {
    pub fn new(path: &str) -> (p: KPath)
        ensures
            p@ == path@,
    {
        KPath(String::from_str(path))
    }

    pub fn as_str(&self) -> (s: &str)
        ensures
            s@ == self@,
    {
        self.0.as_str()
    }

    pub fn parent(&self) -> (r: Option<KPath>)
        ensures
            match r {
                Some(p) => path_parent(self@) == Some(p@),
                None => path_parent(self@) is None,
            },
    {
        let cs = to_chars(self.0.as_str());
        let n = trim_end_len(&cs, cs.len(), '/');
        proof {
            assert(cs@.take(cs@.len() as int) =~= cs@);
        }
        match rfind_in(&cs, n, '/') {
            Some(i) => {
                if i == 0 {
                    proof {
                        reveal_strlit("/");
                        assert("/"@ =~= seq!['/']);
                    }
                    Some(KPath::new("/"))
                } else {
                    proof {
                        assert(cs@.take(n as int).take(i as int) =~= cs@.subrange(0, i as int));
                    }
                    Some(KPath(string_of(&cs, 0, i)))
                }
            },
            None => None,
        }
    }

    pub fn name(&self) -> (s: &str)
        ensures
            s@ == path_name(self@),
    {
        let cs = to_chars(self.0.as_str());
        let n = trim_end_len(&cs, cs.len(), '/');
        proof {
            assert(cs@.take(cs@.len() as int) =~= cs@);
        }
        match rfind_in(&cs, n, '/') {
            Some(i) => {
                proof {
                    assert(cs@.take(n as int).skip(i + 1) =~= cs@.subrange(i + 1, n as int));
                }
                self.0.as_str().substring_char(i + 1, n)
            },
            None => {
                proof {
                    assert(cs@.take(n as int) =~= cs@.subrange(0, n as int));
                }
                self.0.as_str().substring_char(0, n)
            },
        }
    }

    pub fn join(&self, other: &str) -> (p: KPath)
        ensures
            p@ == path_join(self@, other@),
    {
        let o = to_chars(other);
        let b = to_chars(self.0.as_str());
        if o.len() > 0 && o[0] == '/' {
            KPath::new(other)
        } else if b.len() > 0 && b[b.len() - 1] == '/' {
            let mut s = self.0.clone();
            s.append(other);
            KPath(s)
        } else {
            let mut s = self.0.clone();
            s.append("/");
            s.append(other);
            proof {
                reveal_strlit("/");
                assert("/"@ =~= seq!['/']);
            }
            KPath(s)
        }
    }
}

// ---------------------------------------------------------------------
// The file system interfaces
// ---------------------------------------------------------------------

/// An open file of a file system of type `Self::Fs`.
pub trait FileHandle: Sized {
    type Fs;

    /// The file system is well formed.
    spec fn fs_wf(fs: &Self::Fs) -> bool;

    /// A write of `len` bytes through this handle stays within the address
    /// space.
    spec fn write_fits(&self, fs: &Self::Fs, len: nat) -> bool;

    /// The position that a seek to `pos` computes is a representable
    /// number.
    spec fn seek_fits(&self, fs: &Self::Fs, pos: SeekFrom) -> bool;

    fn read(&mut self, fs: &Self::Fs, buf: &mut [u8]) -> Result<usize>
        requires
            Self::fs_wf(fs),
    ;

    fn write(&mut self, fs: &mut Self::Fs, buf: &[u8]) -> (r: Result<usize>)
        requires
            Self::fs_wf(old(fs)),
            old(self).write_fits(old(fs), buf@.len()),
        ensures
            Self::fs_wf(final(fs)),
    ;

    fn seek(&mut self, fs: &Self::Fs, pos: SeekFrom) -> Result<u64>
        requires
            Self::fs_wf(fs),
            old(self).seek_fits(fs, pos),
    ;

    fn stat(&self, fs: &Self::Fs) -> Result<Metadata>
        requires
            Self::fs_wf(fs),
    ;
}

/// A file system: a tree of named files and directories.
pub trait FileSystem: Sized {
    type Handle;

    /// The file system's internal structure is well formed.
    spec fn wf(&self) -> bool;

    fn open(&mut self, path: &KPath, flags: OpenFlags) -> (r: Result<Self::Handle>)
        requires
            old(self).wf(),
        ensures
            final(self).wf(),
    ;

    fn stat(&self, path: &KPath) -> Result<Metadata>
        requires
            self.wf(),
    ;

    fn readdir(&self, path: &KPath) -> Result<Vec<DirEntry>>
        requires
            self.wf(),
    ;

    fn mkdir(&mut self, path: &KPath) -> (r: Result<()>)
        requires
            old(self).wf(),
        ensures
            final(self).wf(),
    ;

    fn unlink(&mut self, path: &KPath) -> (r: Result<()>)
        requires
            old(self).wf(),
        ensures
            final(self).wf(),
    ;

    fn rename(&mut self, from: &KPath, to: &KPath) -> (r: Result<()>)
        requires
            old(self).wf(),
        ensures
            final(self).wf(),
    ;
}

} // verus!
