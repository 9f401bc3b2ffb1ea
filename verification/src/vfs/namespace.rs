//! The mount namespace: file systems mounted at path prefixes, and the
//! routing of each path to the file system with the longest matching
//! mount point.
use vstd::prelude::*;

use crate::fs::memfs::{
    handle_stat_spec, mkdir_spec, open_spec, read_spec, readdir_spec, rename_spec, seek_fits_spec,
    seek_spec, stat_spec, unlink_spec, write_fits_spec, write_spec, FsView, HandleView,
    MemFileHandle, MemFs,
};
use crate::strmap::StrMap;
use crate::strs::{string_of, to_chars};
use crate::vfs::traits::{
    DirEntry, FileHandle, FileSystem, FsError, KPath, Metadata, NodeType, OpenFlags, Result, SeekFrom,
};

verus! {

/// The mounted file systems, by mount point.
pub type NsView = Map<Seq<char>, FsView>;

/// `p` is a prefix of `s` (`str::starts_with`).
pub open spec fn is_prefix(p: Seq<char>, s: Seq<char>) -> bool {
    p.len() <= s.len() && s.take(p.len() as int) == p
}

/// `m` is a mount point that `path` starts with, and no longer mount point
/// is.
pub open spec fn is_best_mount(mounts: Set<Seq<char>>, path: Seq<char>, m: Seq<char>) -> bool {
    &&& mounts.contains(m)
    &&& is_prefix(m, path)
    &&& forall|m2: Seq<char>| #[trigger] mounts.contains(m2) && is_prefix(m2, path) ==> m2.len() <= m.len()
}

/// The longest mount point that `path` starts with.
pub open spec fn best_mount(mounts: Set<Seq<char>>, path: Seq<char>) -> Option<Seq<char>> {
    if exists|m: Seq<char>| is_best_mount(mounts, path, m) {
        Some(choose|m: Seq<char>| is_best_mount(mounts, path, m))
    } else {
        None
    }
}

/// The path inside the file system mounted at `m`: the root for the mount
/// point itself, the rest after the mount point where it begins with `/`,
/// else the whole path.
pub open spec fn rel_path(m: Seq<char>, path: Seq<char>) -> Seq<char> {
    if path == m {
        seq!['/']
    } else if is_prefix(m, path) && path.len() > m.len() && path[m.len() as int] == '/' {
        path.skip(m.len() as int)
    } else {
        path
    }
}

/// Where `path` goes: its mount point and the path inside that file system.
pub open spec fn resolve_spec(ns: NsView, path: Seq<char>) -> Option<(Seq<char>, Seq<char>)> {
    match best_mount(ns.dom(), path) {
        Some(m) => Some((m, rel_path(m, path))),
        None => None,
    }
}

pub proof fn lemma_best_mount_unique(mounts: Set<Seq<char>>, path: Seq<char>, m: Seq<char>)
    requires
        is_best_mount(mounts, path, m),
    ensures
        best_mount(mounts, path) == Some(m),
{
    let c = choose|x: Seq<char>| is_best_mount(mounts, path, x);
    assert(is_best_mount(mounts, path, c));
    assert(c.len() == m.len());
    assert(c =~= path.take(c.len() as int));
    assert(m =~= path.take(m.len() as int));
}

/// Whether `s` starts with `p`.
fn starts_with_chars(s: &Vec<char>, p: &Vec<char>) -> (r: bool)
    ensures
        r == is_prefix(p@, s@),
{
    if p.len() > s.len() {
        return false;
    }
    let mut k: usize = 0;
    while k < p.len()
        invariant
            p@.len() <= s@.len(),
            k <= p@.len(),
            forall|j: int| 0 <= j < k ==> p@[j] == s@[j],
        decreases p@.len() - k,
    {
        if p[k] != s[k] {
            proof {
                if is_prefix(p@, s@) {
                    assert(s@.take(p@.len() as int)[k as int] == s@[k as int]);
                }
            }
            return false;
        }
        k = k + 1;
    }
    assert(s@.take(p@.len() as int) =~= p@);
    true
}

/// An open file of the namespace: the mount point of its file system and
/// that file system's handle.
pub struct NsFile {
    mount: String,
    handle: MemFileHandle,
}

pub struct NsFileView {
    pub mount: Seq<char>,
    pub handle: HandleView,
}

impl View for NsFile {
    type V = NsFileView;

    closed spec fn view(&self) -> NsFileView {
        NsFileView { mount: self.mount@, handle: self.handle@ }
    }
}

pub open spec fn ns_stat(ns: NsView, path: Seq<char>) -> core::result::Result<Metadata, FsError> {
    match resolve_spec(ns, path) {
        None => Err(FsError::NotFound),
        Some((m, rel)) => stat_spec(ns[m], rel),
    }
}

pub open spec fn ns_readdir(ns: NsView, path: Seq<char>) -> core::result::Result<
    Seq<(Seq<char>, NodeType)>,
    FsError,
> {
    match resolve_spec(ns, path) {
        None => Err(FsError::NotFound),
        Some((m, rel)) => readdir_spec(ns[m], rel),
    }
}

pub open spec fn ns_mkdir(ns: NsView, path: Seq<char>) -> (NsView, core::result::Result<(), FsError>) {
    match resolve_spec(ns, path) {
        None => (ns, Err(FsError::NotFound)),
        Some((m, rel)) => (ns.insert(m, mkdir_spec(ns[m], rel).0), mkdir_spec(ns[m], rel).1),
    }
}

pub open spec fn ns_unlink(ns: NsView, path: Seq<char>) -> (NsView, core::result::Result<(), FsError>) {
    match resolve_spec(ns, path) {
        None => (ns, Err(FsError::NotFound)),
        Some((m, rel)) => (ns.insert(m, unlink_spec(ns[m], rel).0), unlink_spec(ns[m], rel).1),
    }
}

/// A rename within one file system; across two it is not implemented.
pub open spec fn ns_rename(ns: NsView, from: Seq<char>, to: Seq<char>) -> (
    NsView,
    core::result::Result<(), FsError>,
) {
    match (resolve_spec(ns, from), resolve_spec(ns, to)) {
        (Some((fm, frel)), Some((tm, trel))) => if fm != tm {
            (ns, Err(FsError::NotImplemented))
        } else {
            (ns.insert(fm, rename_spec(ns[fm], frel, trel).0), rename_spec(ns[fm], frel, trel).1)
        },
        _ => (ns, Err(FsError::NotFound)),
    }
}

pub open spec fn ns_open(ns: NsView, path: Seq<char>, flags: OpenFlags) -> (
    NsView,
    core::result::Result<NsFileView, FsError>,
) {
    match resolve_spec(ns, path) {
        None => (ns, Err(FsError::NotFound)),
        Some((m, rel)) => (
            ns.insert(m, open_spec(ns[m], rel, flags).0),
            match open_spec(ns[m], rel, flags).1 {
                Ok(h) => Ok(NsFileView { mount: m, handle: h }),
                Err(e) => Err(e),
            },
        ),
    }
}

/// A read through an open file; a file whose mount point is gone is a bad
/// descriptor.
pub open spec fn ns_read(ns: NsView, f: NsFileView, len: nat) -> core::result::Result<
    Seq<u8>,
    FsError,
> {
    if !ns.contains_key(f.mount) {
        Err(FsError::BadFileDescriptor)
    } else {
        read_spec(ns[f.mount], f.handle, len)
    }
}

pub open spec fn ns_write(ns: NsView, f: NsFileView, data: Seq<u8>) -> (
    NsView,
    NsFileView,
    core::result::Result<usize, FsError>,
) {
    if !ns.contains_key(f.mount) {
        (ns, f, Err(FsError::BadFileDescriptor))
    } else {
        let w = write_spec(ns[f.mount], f.handle, data);
        (
            ns.insert(f.mount, w.0),
            NsFileView { mount: f.mount, handle: HandleView { offset: w.1, ..f.handle } },
            w.2,
        )
    }
}

/// A write of `len` bytes through `f` stays within the address space.
pub open spec fn ns_write_fits(ns: NsView, f: NsFileView, len: nat) -> bool {
    ns.contains_key(f.mount) ==> write_fits_spec(ns[f.mount], f.handle, len)
}

/// A seek through an open file: the file afterwards and the new position
/// or the error.
pub open spec fn ns_seek(ns: NsView, f: NsFileView, pos: SeekFrom) -> (
    NsFileView,
    core::result::Result<u64, FsError>,
) {
    if !ns.contains_key(f.mount) {
        (f, Err(FsError::BadFileDescriptor))
    } else {
        match seek_spec(ns[f.mount], f.handle, pos) {
            Ok(o) => (NsFileView { mount: f.mount, handle: HandleView { offset: o, ..f.handle } }, Ok(o)),
            Err(e) => (f, Err(e)),
        }
    }
}

/// The position that a seek through `f` computes is an `i64`.
pub open spec fn ns_seek_fits(ns: NsView, f: NsFileView, pos: SeekFrom) -> bool {
    ns.contains_key(f.mount) ==> seek_fits_spec(ns[f.mount], f.handle, pos)
}

/// What `stat` reports of an open file.
pub open spec fn ns_fstat(ns: NsView, f: NsFileView) -> core::result::Result<Metadata, FsError> {
    if !ns.contains_key(f.mount) {
        Err(FsError::BadFileDescriptor)
    } else {
        handle_stat_spec(ns[f.mount], f.handle)
    }
}

/// The mount namespace.
pub struct Namespace {
    mounts: StrMap<MemFs>,
}

impl View for Namespace {
    type V = NsView;

    closed spec fn view(&self) -> NsView {
        self.mounts@
    }
}

impl Namespace {
    /// The mount table is sorted and every mounted file system is well
    /// formed.
    pub closed spec fn valid(&self) -> bool {
        &&& self.mounts.wf()
        &&& forall|fs: MemFs| #[trigger] self.mounts.values().contains(fs) ==> fs.valid()
    }

    /// Every mounted file system's files have `usize` lengths.
    pub proof fn lemma_sizes_fit(&self)
        requires
            self.valid(),
        ensures
            forall|m: Seq<char>| #[trigger] self@.contains_key(m) ==> crate::fs::memfs::sizes_fit(self@[m]),
    {
        self.mounts.lemma_view();
        assert forall|m: Seq<char>| #[trigger] self@.contains_key(m) implies crate::fs::memfs::sizes_fit(self@[m]) by {
            let i = choose|i: int| 0 <= i < self.mounts.keys().len() && self.mounts.keys()[i] == m;
            let fs = self.mounts.values()[i];
            assert(self.mounts.values().contains(fs));
            assert(self.mounts.vals()[i] == fs@);
            fs.lemma_sizes_fit();
        }
    }

    pub fn new() -> (ns: Self)
        ensures
            ns.valid(),
            ns@ == Map::<Seq<char>, FsView>::empty(),
    {
        Namespace { mounts: StrMap::new() }
    }

    /// Mounts `fs` at `path`, replacing what was mounted there.
    pub fn mount(&mut self, path: &str, fs: MemFs)
        requires
            old(self).valid(),
            fs.valid(),
        ensures
            final(self).valid(),
            final(self)@ == old(self)@.insert(path@, fs@),
    {
        self.mounts.insert(String::from_str(path), fs);
    }

    /// The mount point that `path` resolves to and the path inside it.
    fn resolve(&self, path: &KPath) -> (r: Option<(String, KPath)>)
        requires
            self.valid(),
        ensures
            match r {
                Some((m, rel)) => resolve_spec(self@, path@) == Some((m@, rel@)),
                None => resolve_spec(self@, path@) is None,
            },
    {
        proof {
            self.mounts.lemma_view();
        }
        let pc = to_chars(path.as_str());
        let mut best: Option<usize> = None;
        let mut best_len: usize = 0;
        let mut i: usize = 0;
        while i < self.mounts.len()
            invariant
                self.valid(),
                pc@ == path@,
                i <= self.mounts.keys().len(),
                match best {
                    Some(b) => b < i && is_prefix(self.mounts.keys()[b as int], path@)
                        && best_len == self.mounts.keys()[b as int].len() && forall|j: int|
                        0 <= j < i && is_prefix(#[trigger] self.mounts.keys()[j], path@)
                            ==> self.mounts.keys()[j].len() <= best_len,
                    None => forall|j: int| 0 <= j < i ==> !is_prefix(#[trigger] self.mounts.keys()[j], path@),
                },
            decreases self.mounts.keys().len() - i,
        {
            let mc = to_chars(self.mounts.key_at(i).as_str());
            let ghost m = self.mounts.keys()[i as int];
            let pre = starts_with_chars(&pc, &mc);
            if pre && (best.is_none() || mc.len() > best_len) {
                best = Some(i);
                best_len = mc.len();
            }
            i = i + 1;
        }
        match best {
            None => {
                proof {
                    assert forall|m: Seq<char>| !is_best_mount(self@.dom(), path@, m) by {
                        if self@.dom().contains(m) {
                            assert(self@.contains_key(m));
                            let j = choose|j: int| 0 <= j < self.mounts.keys().len() && self.mounts.keys()[j] == m;
                            assert(!is_prefix(self.mounts.keys()[j], path@));
                        }
                    }
                }
                None
            },
            Some(b) => {
                let m = self.mounts.key_at(b);
                let mc = to_chars(m.as_str());
                proof {
                    assert forall|m2: Seq<char>| #[trigger] self@.dom().contains(m2) && is_prefix(m2, path@) implies m2.len() <= mc@.len() by {
                        assert(self@.contains_key(m2));
                        let j = choose|j: int| 0 <= j < self.mounts.keys().len() && self.mounts.keys()[j] == m2;
                        assert(is_prefix(self.mounts.keys()[j], path@));
                    }
                    assert(self@.contains_key(self.mounts.keys()[b as int]));
                    assert(is_best_mount(self@.dom(), path@, m@));
                    lemma_best_mount_unique(self@.dom(), path@, m@);
                }
                let rel = if pc.len() == mc.len() {
                    proof {
                        reveal_strlit("/");
                        assert("/"@ =~= seq!['/']);
                        assert(path@ =~= m@.take(m@.len() as int));
                        assert(path@ =~= m@);
                    }
                    KPath::new("/")
                } else if pc[mc.len()] == '/' {
                    proof {
                        assert(pc@.subrange(mc@.len() as int, pc@.len() as int) =~= path@.skip(mc@.len() as int));
                        assert(path@ != m@);
                    }
                    KPath(string_of(&pc, mc.len(), pc.len()))
                } else {
                    proof {
                        assert(path@ != m@) by {
                            assert(path@.len() != m@.len());
                        }
                    }
                    KPath(path.0.clone())
                };
                Some((m.clone(), rel))
            },
        }
    }

    pub fn open(&mut self, path: &KPath, flags: OpenFlags) -> (r: Result<NsFile>)
        requires
            old(self).valid(),
        ensures
            final(self).valid(),
            final(self)@ == ns_open(old(self)@, path@, flags).0,
            match r {
                Ok(f) => ns_open(old(self)@, path@, flags).1 == Ok::<NsFileView, FsError>(f@),
                Err(e) => ns_open(old(self)@, path@, flags).1 == Err::<NsFileView, FsError>(e),
            },
    {
        let (mp, rel) = match self.resolve(path) {
            Some(x) => x,
            None => {
                return Err(FsError::NotFound);
            },
        };
        proof {
            self.mounts.lemma_view();
        }
        match self.mounts.remove(mp.as_str()) {
            Some(mut fs) => {
                let r = fs.open(&rel, flags);
                self.mounts.insert(mp.clone(), fs);
                match r {
                    Ok(h) => Ok(NsFile { mount: mp, handle: h }),
                    Err(e) => Err(e),
                }
            },
            None => Err(FsError::NotFound),
        }
    }

    pub fn stat(&self, path: &KPath) -> (r: Result<Metadata>)
        requires
            self.valid(),
        ensures
            r == ns_stat(self@, path@),
    {
        let (mp, rel) = match self.resolve(path) {
            Some(x) => x,
            None => {
                return Err(FsError::NotFound);
            },
        };
        match self.mounts.get(mp.as_str()) {
            Some(fs) => fs.stat(&rel),
            None => Err(FsError::NotFound),
        }
    }

    pub fn readdir(&self, path: &KPath) -> (r: Result<Vec<DirEntry>>)
        requires
            self.valid(),
        ensures
            match r {
                Ok(v) => ns_readdir(self@, path@) == Ok::<Seq<(Seq<char>, NodeType)>, FsError>(
                    v@.map_values(|e: DirEntry| e@),
                ),
                Err(e) => ns_readdir(self@, path@) == Err::<Seq<(Seq<char>, NodeType)>, FsError>(e),
            },
    {
        let (mp, rel) = match self.resolve(path) {
            Some(x) => x,
            None => {
                return Err(FsError::NotFound);
            },
        };
        match self.mounts.get(mp.as_str()) {
            Some(fs) => fs.readdir(&rel),
            None => Err(FsError::NotFound),
        }
    }

    pub fn mkdir(&mut self, path: &KPath) -> (r: Result<()>)
        requires
            old(self).valid(),
        ensures
            final(self).valid(),
            (final(self)@, r) == ns_mkdir(old(self)@, path@),
    {
        let (mp, rel) = match self.resolve(path) {
            Some(x) => x,
            None => {
                return Err(FsError::NotFound);
            },
        };
        proof {
            self.mounts.lemma_view();
        }
        match self.mounts.remove(mp.as_str()) {
            Some(mut fs) => {
                let r = fs.mkdir(&rel);
                self.mounts.insert(mp, fs);
                r
            },
            None => Err(FsError::NotFound),
        }
    }

    pub fn unlink(&mut self, path: &KPath) -> (r: Result<()>)
        requires
            old(self).valid(),
        ensures
            final(self).valid(),
            (final(self)@, r) == ns_unlink(old(self)@, path@),
    {
        let (mp, rel) = match self.resolve(path) {
            Some(x) => x,
            None => {
                return Err(FsError::NotFound);
            },
        };
        proof {
            self.mounts.lemma_view();
        }
        match self.mounts.remove(mp.as_str()) {
            Some(mut fs) => {
                let r = fs.unlink(&rel);
                self.mounts.insert(mp, fs);
                r
            },
            None => Err(FsError::NotFound),
        }
    }

    /// Renames within one file system; a rename across two file systems is
    /// refused with `NotImplemented`.
    pub fn rename(&mut self, from: &KPath, to: &KPath) -> (r: Result<()>)
        requires
            old(self).valid(),
        ensures
            final(self).valid(),
            (final(self)@, r) == ns_rename(old(self)@, from@, to@),
    {
        let (from_mount, from_rel) = match self.resolve(from) {
            Some(x) => x,
            None => {
                return Err(FsError::NotFound);
            },
        };
        let (to_mount, to_rel) = match self.resolve(to) {
            Some(x) => x,
            None => {
                return Err(FsError::NotFound);
            },
        };
        if from_mount != to_mount {
            return Err(FsError::NotImplemented);
        }
        proof {
            self.mounts.lemma_view();
        }
        match self.mounts.remove(from_mount.as_str()) {
            Some(mut fs) => {
                let r = fs.rename(&from_rel, &to_rel);
                self.mounts.insert(from_mount, fs);
                r
            },
            None => Err(FsError::NotFound),
        }
    }

    /// Reads from an open file into `buf`.
    pub fn read(&self, file: &mut NsFile, buf: &mut [u8]) -> (r: Result<usize>)
        requires
            self.valid(),
        ensures
            match (r, ns_read(self@, old(file)@, old(buf)@.len())) {
                (Ok(n), Ok(bytes)) => {
                    &&& n == bytes.len()
                    &&& final(buf)@ == bytes + old(buf)@.skip(n as int)
                    &&& final(file)@ == (NsFileView {
                        mount: old(file)@.mount,
                        handle: HandleView { offset: (old(file)@.handle.offset + n) as u64, ..old(file)@.handle },
                    })
                },
                (Err(e), Err(e2)) => e == e2 && final(file)@ == old(file)@ && final(buf)@ == old(buf)@,
                _ => false,
            },
    {
        match self.mounts.get(file.mount.as_str()) {
            Some(fs) => file.handle.read(fs, buf),
            None => Err(FsError::BadFileDescriptor),
        }
    }

    /// Writes `buf` through an open file.
    pub fn write(&mut self, file: &mut NsFile, buf: &[u8]) -> (r: Result<usize>)
        requires
            old(self).valid(),
            ns_write_fits(old(self)@, old(file)@, buf@.len()),
        ensures
            final(self).valid(),
            (final(self)@, final(file)@, r) == ns_write(old(self)@, old(file)@, buf@),
    {
        proof {
            self.mounts.lemma_view();
        }
        match self.mounts.remove(file.mount.as_str()) {
            Some(mut fs) => {
                let r = file.handle.write(&mut fs, buf);
                self.mounts.insert(file.mount.clone(), fs);
                r
            },
            None => Err(FsError::BadFileDescriptor),
        }
    }

    /// Moves the position of an open file.
    pub fn seek(&self, file: &mut NsFile, pos: SeekFrom) -> (r: Result<u64>)
        requires
            self.valid(),
            ns_seek_fits(self@, old(file)@, pos),
        ensures
            (final(file)@, r) == ns_seek(self@, old(file)@, pos),
    {
        match self.mounts.get(file.mount.as_str()) {
            Some(fs) => file.handle.seek(fs, pos),
            None => Err(FsError::BadFileDescriptor),
        }
    }

    /// What the file open as `file` is: its type and size.
    pub fn fstat(&self, file: &NsFile) -> (r: Result<Metadata>)
        requires
            self.valid(),
        ensures
            r == ns_fstat(self@, file@),
    {
        match self.mounts.get(file.mount.as_str()) {
            Some(fs) => file.handle.stat(fs),
            None => Err(FsError::BadFileDescriptor),
        }
    }
}

} // verus!
