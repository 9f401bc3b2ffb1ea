//! An in-memory file system: a table from absolute path strings to nodes,
//! each a file of bytes or a directory holding the names of its children.
use vstd::prelude::*;

use crate::strmap::{sorted_of, strictly_sorted, lemma_sorted_of, StrMap};
use crate::strs::{
    rfind_char, rfind_in, str_equal, string_of, to_chars, trim_end_char,
    trim_end_len,
};
use crate::vfs::traits::{
    path_name, DirEntry, FileHandle, FileSystem, FsError, KPath, Metadata, NodeType, OpenFlags,
    Result, SeekFrom,
};

verus! {

// ---------------------------------------------------------------------
// The model
// ---------------------------------------------------------------------

/// What a node holds: a file's bytes, or the names of a directory's
/// children.
pub enum NodeView {
    File(Seq<u8>),
    Dir(Set<Seq<char>>),
}

/// The state of an in-memory file system: each absolute path that exists
/// and its node.
pub type FsView = Map<Seq<char>, NodeView>;

/// What an open file remembers: its path, its position and whether it
/// writes at the end.
pub struct HandleView {
    pub path: Seq<char>,
    pub offset: u64,
    pub append: bool,
}

pub open spec fn slash() -> Seq<char> {
    seq!['/']
}

/// A path made absolute: empty and `.` name the root, a path without a
/// leading `/` gets one.
pub open spec fn normalize(p: Seq<char>) -> Seq<char> {
    if p.len() == 0 || p == seq!['.'] {
        slash()
    } else if p[0] == '/' {
        p
    } else {
        slash() + p
    }
}

/// The directory that holds `p`: none for the root itself, else the part
/// before the last `/` (trailing slashes ignored), or the root.
pub open spec fn parent_of(p: Seq<char>) -> Option<Seq<char>> {
    if p == slash() {
        None
    } else {
        let t = trim_end_char(p, '/');
        match rfind_char(t, '/') {
            Some(i) => if i == 0 {
                Some(slash())
            } else {
                Some(t.take(i))
            },
            None => Some(slash()),
        }
    }
}

/// Whether `p` names a directory: `NotFound` or `NotDir` if it does not.
pub open spec fn dir_status(fs: FsView, p: Seq<char>) -> core::result::Result<(), FsError> {
    if !fs.contains_key(p) {
        Err(FsError::NotFound)
    } else {
        match fs[p] {
            NodeView::Dir(_) => Ok(()),
            NodeView::File(_) => Err(FsError::NotDir),
        }
    }
}

/// `fs` with `name` added to directory `dir`, if `dir` is a directory.
pub open spec fn with_entry(fs: FsView, dir: Seq<char>, name: Seq<char>) -> FsView {
    if fs.contains_key(dir) {
        match fs[dir] {
            NodeView::Dir(names) => fs.insert(dir, NodeView::Dir(names.insert(name))),
            NodeView::File(_) => fs,
        }
    } else {
        fs
    }
}

/// `fs` with `name` removed from directory `dir`, if `dir` is a directory.
pub open spec fn without_entry(fs: FsView, dir: Seq<char>, name: Seq<char>) -> FsView {
    if fs.contains_key(dir) {
        match fs[dir] {
            NodeView::Dir(names) => fs.insert(dir, NodeView::Dir(names.remove(name))),
            NodeView::File(_) => fs,
        }
    } else {
        fs
    }
}

pub open spec fn node_type_of(n: NodeView) -> NodeType {
    match n {
        NodeView::File(_) => NodeType::File,
        NodeView::Dir(_) => NodeType::Dir,
    }
}

pub open spec fn metadata_of(n: NodeView) -> Metadata {
    match n {
        NodeView::File(d) => Metadata { node_type: NodeType::File, size: d.len() as u64 },
        NodeView::Dir(_) => Metadata { node_type: NodeType::Dir, size: 0 },
    }
}

/// Every file's length is a `usize`.
pub open spec fn sizes_fit(fs: FsView) -> bool {
    forall|p: Seq<char>| #[trigger] fs.contains_key(p) && fs[p] is File ==> fs[p]->File_0.len() <= usize::MAX
}

/// The result of `stat`.
pub open spec fn stat_spec(fs: FsView, path: Seq<char>) -> core::result::Result<Metadata, FsError> {
    let p = normalize(path);
    if fs.contains_key(p) {
        Ok(metadata_of(fs[p]))
    } else {
        Err(FsError::NotFound)
    }
}

/// The path of child `name` of directory `dir`.
pub open spec fn child_path(dir: Seq<char>, name: Seq<char>) -> Seq<char> {
    trim_end_char(dir, '/') + slash() + name
}

/// The listing of `names` in directory `dir`: those whose child path
/// exists, each with the type of its node.
pub open spec fn listing(fs: FsView, dir: Seq<char>, names: Seq<Seq<char>>) -> Seq<
    (Seq<char>, NodeType),
>
    decreases names.len(),
{
    if names.len() == 0 {
        seq![]
    } else {
        let rest = listing(fs, dir, names.drop_last());
        let c = child_path(dir, names.last());
        if fs.contains_key(c) {
            rest.push((names.last(), node_type_of(fs[c])))
        } else {
            rest
        }
    }
}

/// The result of `readdir`: the children in ascending name order.
pub open spec fn readdir_spec(fs: FsView, path: Seq<char>) -> core::result::Result<
    Seq<(Seq<char>, NodeType)>,
    FsError,
> {
    let p = normalize(path);
    if !fs.contains_key(p) {
        Err(FsError::NotFound)
    } else {
        match fs[p] {
            NodeView::Dir(names) => Ok(listing(fs, p, sorted_of(names))),
            NodeView::File(_) => Err(FsError::NotDir),
        }
    }
}

/// The state and result of `mkdir`.
pub open spec fn mkdir_spec(fs: FsView, path: Seq<char>) -> (FsView, core::result::Result<(), FsError>) {
    let p = normalize(path);
    if fs.contains_key(p) {
        (fs, Err(FsError::AlreadyExists))
    } else {
        match parent_of(p) {
            None => (fs, Err(FsError::NotFound)),
            Some(par) => match dir_status(fs, par) {
                Err(e) => (fs, Err(e)),
                Ok(_) => (
                    with_entry(fs.insert(p, NodeView::Dir(Set::empty())), par, path_name(p)),
                    Ok(()),
                ),
            },
        }
    }
}

/// The state and result of `unlink`.
pub open spec fn unlink_spec(fs: FsView, path: Seq<char>) -> (FsView, core::result::Result<(), FsError>) {
    let p = normalize(path);
    if !fs.contains_key(p) {
        (fs, Err(FsError::NotFound))
    } else if fs[p] matches NodeView::Dir(names) && names != Set::<Seq<char>>::empty() {
        (fs, Err(FsError::NotEmpty))
    } else {
        match parent_of(p) {
            None => (fs, Err(FsError::NotFound)),
            Some(par) => (without_entry(fs, par, path_name(p)).remove(p), Ok(())),
        }
    }
}

/// The state and result of `rename`.
pub open spec fn rename_spec(fs: FsView, from: Seq<char>, to: Seq<char>) -> (
    FsView,
    core::result::Result<(), FsError>,
) {
    let f = normalize(from);
    let t = normalize(to);
    if !fs.contains_key(f) {
        (fs, Err(FsError::NotFound))
    } else if fs.contains_key(t) {
        (fs, Err(FsError::AlreadyExists))
    } else {
        match (parent_of(f), parent_of(t)) {
            (Some(fp), Some(tp)) => {
                let moved = fs.remove(f).insert(t, fs[f]);
                (with_entry(without_entry(moved, fp, path_name(f)), tp, path_name(t)), Ok(()))
            },
            _ => (fs, Err(FsError::NotFound)),
        }
    }
}

/// The length of the file at `p`, or 0 if `p` is not a file.
pub open spec fn file_len(fs: FsView, p: Seq<char>) -> nat {
    if fs.contains_key(p) {
        match fs[p] {
            NodeView::File(d) => d.len(),
            NodeView::Dir(_) => 0,
        }
    } else {
        0
    }
}

/// The state and result of `open`: a directory is refused; a missing file
/// is created, in an existing directory, if `flags.create`; an existing
/// file is emptied if `flags.truncate`; the position starts at the end if
/// `flags.append`, else at 0.
pub open spec fn open_spec(fs: FsView, path: Seq<char>, flags: OpenFlags) -> (
    FsView,
    core::result::Result<HandleView, FsError>,
) {
    let p = normalize(path);
    let exists = fs.contains_key(p);
    if exists && fs[p] is Dir {
        (fs, Err(FsError::IsDir))
    } else {
        let fs1 = if exists && flags.truncate {
            fs.insert(p, NodeView::File(Seq::empty()))
        } else {
            fs
        };
        let handle = |fs2: FsView|
            HandleView {
                path: p,
                offset: if flags.append {
                    file_len(fs2, p) as u64
                } else {
                    0
                },
                append: flags.append,
            };
        if exists {
            (fs1, Ok(handle(fs1)))
        } else if !flags.create {
            (fs1, Err(FsError::NotFound))
        } else {
            match parent_of(p) {
                None => (fs1, Err(FsError::NotFound)),
                Some(par) => match dir_status(fs1, par) {
                    Err(e) => (fs1, Err(e)),
                    Ok(_) => {
                        let fs2 = with_entry(
                            fs1.insert(p, NodeView::File(Seq::empty())),
                            par,
                            path_name(p),
                        );
                        (fs2, Ok(handle(fs2)))
                    },
                },
            }
        }
    }
}

// ---------------------------------------------------------------------
// Nodes and the file system
// ---------------------------------------------------------------------

/// A node: a file of bytes, or a directory holding its children's names
/// in ascending order.
#[derive(Debug, Clone)]
pub enum MemNode {
    File(Vec<u8>),
    Dir(StrMap<()>),
}

impl View for MemNode {
    type V = NodeView;

    open spec fn view(&self) -> NodeView {
        match self {
            MemNode::File(d) => NodeView::File(d@),
            MemNode::Dir(names) => NodeView::Dir(names@.dom()),
        }
    }
}

impl MemNode {
    pub open spec fn wf(&self) -> bool {
        match self {
            MemNode::File(_) => true,
            MemNode::Dir(names) => names.wf(),
        }
    }
}

/// An in-memory file system.
pub struct MemFs {
    nodes: StrMap<MemNode>,
}

impl View for MemFs {
    type V = FsView;

    closed spec fn view(&self) -> FsView {
        self.nodes@
    }
}

impl MemFs {
    /// The node table is sorted and every directory's name set is sorted.
    pub closed spec fn valid(&self) -> bool {
        &&& self.nodes.wf()
        &&& forall|n: MemNode| #[trigger] self.nodes.values().contains(n) ==> n.wf()
    }

    /// Every file's length is a `usize`.
    pub proof fn lemma_sizes_fit(&self)
        requires
            self.valid(),
        ensures
            sizes_fit(self@),
    {
        self.nodes.lemma_view();
        assert forall|p: Seq<char>| #[trigger] self@.contains_key(p) && self@[p] is File implies self@[p]->File_0.len() <= usize::MAX by {
            let i = choose|i: int| 0 <= i < self.nodes.keys().len() && self.nodes.keys()[i] == p;
            let n = self.nodes.values()[i];
            assert(self.nodes.vals()[i] == n@);
            match n {
                MemNode::File(v) => {
                    assert(v.len() == v@.len());
                },
                MemNode::Dir(_) => {},
            }
        }
    }

    /// Each directory's names, in ascending order, are a strictly sorted
    /// sequence holding exactly those names.
    pub proof fn lemma_dirs_sorted(&self)
        requires
            self.valid(),
        ensures
            forall|p: Seq<char>| #[trigger]
                self@.contains_key(p) && self@[p] is Dir ==> strictly_sorted(sorted_of(self@[p]->Dir_0))
                    && sorted_of(self@[p]->Dir_0).to_set() == self@[p]->Dir_0
                    && self@[p]->Dir_0.finite(),
    {
        self.nodes.lemma_view();
        assert forall|p: Seq<char>| #[trigger] self@.contains_key(p) && self@[p] is Dir implies strictly_sorted(sorted_of(self@[p]->Dir_0))
            && sorted_of(self@[p]->Dir_0).to_set() == self@[p]->Dir_0 && self@[p]->Dir_0.finite() by {
            let i = choose|i: int| 0 <= i < self.nodes.keys().len() && self.nodes.keys()[i] == p;
            let n = self.nodes.values()[i];
            assert(self.nodes.values().contains(n));
            assert(self.nodes.vals()[i] == n@);
            match n {
                MemNode::Dir(names) => {
                    names.lemma_view();
                    lemma_sorted_of(names.keys());
                    vstd::seq_lib::seq_to_set_is_finite(names.keys());
                },
                MemNode::File(_) => {},
            }
        }
    }

    /// A file system holding only the empty root directory.
    pub fn new() -> (fs: Self)
        ensures
            fs.valid(),
            fs@ == Map::<Seq<char>, NodeView>::empty().insert(slash(), NodeView::Dir(Set::empty())),
    {
        let mut nodes: StrMap<MemNode> = StrMap::new();
        let root: StrMap<()> = StrMap::new();
        nodes.insert(String::from_str("/"), MemNode::Dir(root));
        proof {
            reveal_strlit("/");
            assert("/"@ =~= slash());
            assert(root@.dom() =~= Set::<Seq<char>>::empty());
        }
        let fs = MemFs { nodes };
        assert(fs@ =~= Map::<Seq<char>, NodeView>::empty().insert(slash(), NodeView::Dir(Set::empty())));
        fs
    }

    /// The path that `path` names, made absolute.
    fn normalize_path(&self, path: &KPath) -> (s: String)
        ensures
            s@ == normalize(path@),
    {
        let cs = to_chars(path.as_str());
        proof {
            reveal_strlit("/");
            assert("/"@ =~= slash());
        }
        if cs.len() == 0 || (cs.len() == 1 && cs[0] == '.') {
            proof {
                if cs.len() == 1 {
                    assert(path@ =~= seq!['.']);
                }
            }
            String::from_str("/")
        } else if cs[0] == '/' {
            path.0.clone()
        } else {
            proof {
                if path@ == seq!['.'] {
                    assert(cs@.len() == 1);
                }
            }
            let mut s = String::from_str("/");
            s.append(path.as_str());
            s
        }
    }

    fn get_parent(&self, path: &str) -> (r: Option<String>)
        ensures
            match r {
                Some(p) => parent_of(path@) == Some(p@),
                None => parent_of(path@) is None,
            },
    {
        proof {
            reveal_strlit("/");
            assert("/"@ =~= slash());
        }
        if str_equal(path, "/") {
            return None;
        }
        let cs = to_chars(path);
        let n = trim_end_len(&cs, cs.len(), '/');
        proof {
            assert(cs@.take(cs@.len() as int) =~= cs@);
        }
        match rfind_in(&cs, n, '/') {
            Some(i) => {
                if i == 0 {
                    Some(String::from_str("/"))
                } else {
                    proof {
                        assert(cs@.take(n as int).take(i as int) =~= cs@.subrange(0, i as int));
                    }
                    Some(string_of(&cs, 0, i))
                }
            },
            None => Some(String::from_str("/")),
        }
    }

    fn get_name(&self, path: &str) -> (s: String)
        ensures
            s@ == path_name(path@),
    {
        let cs = to_chars(path);
        let n = trim_end_len(&cs, cs.len(), '/');
        proof {
            assert(cs@.take(cs@.len() as int) =~= cs@);
        }
        match rfind_in(&cs, n, '/') {
            Some(i) => {
                proof {
                    assert(cs@.take(n as int).skip(i + 1) =~= cs@.subrange(i + 1, n as int));
                }
                string_of(&cs, i + 1, n)
            },
            None => {
                proof {
                    assert(cs@.take(n as int) =~= cs@.subrange(0, n as int));
                }
                string_of(&cs, 0, n)
            },
        }
    }

    fn ensure_dir_exists(&self, path: &str) -> (r: Result<()>)
        requires
            self.valid(),
        ensures
            r == dir_status(self@, path@),
    {
        match self.nodes.get(path) {
            Some(MemNode::Dir(_)) => Ok(()),
            Some(MemNode::File(_)) => Err(FsError::NotDir),
            None => Err(FsError::NotFound),
        }
    }

    /// Applies `with_entry`: adds `name` to directory `dir`, if it is one.
    fn add_entry(&mut self, dir: &str, name: String)
        requires
            old(self).valid(),
        ensures
            final(self).valid(),
            final(self)@ == with_entry(old(self)@, dir@, name@),
    {
        match self.nodes.remove(dir) {
            Some(MemNode::Dir(mut names)) => {
                names.insert(name, ());
                self.nodes.insert(String::from_str(dir), MemNode::Dir(names));
                proof {
                    assert(names@.dom() =~= old(self)@[dir@]->Dir_0.insert(name@));
                    assert(self@ =~= with_entry(old(self)@, dir@, name@));
                }
            },
            Some(node) => {
                self.nodes.insert(String::from_str(dir), node);
                proof {
                    assert(self@ =~= old(self)@);
                }
            },
            None => {
                proof {
                    assert(self@ =~= old(self)@);
                }
            },
        }
    }

    /// Applies `without_entry`: removes `name` from directory `dir`, if it
    /// is one.
    fn remove_entry(&mut self, dir: &str, name: &str)
        requires
            old(self).valid(),
        ensures
            final(self).valid(),
            final(self)@ == without_entry(old(self)@, dir@, name@),
    {
        match self.nodes.remove(dir) {
            Some(MemNode::Dir(mut names)) => {
                let _ = names.remove(name);
                self.nodes.insert(String::from_str(dir), MemNode::Dir(names));
                proof {
                    assert(names@.dom() =~= old(self)@[dir@]->Dir_0.remove(name@));
                    assert(self@ =~= without_entry(old(self)@, dir@, name@));
                }
            },
            Some(node) => {
                self.nodes.insert(String::from_str(dir), node);
                proof {
                    assert(self@ =~= old(self)@);
                }
            },
            None => {
                proof {
                    assert(self@ =~= old(self)@);
                }
            },
        }
    }
}

} // verus!

verus! {

// ---------------------------------------------------------------------
// The file system's operations
// ---------------------------------------------------------------------

impl FileSystem for MemFs {
    type Handle = MemFileHandle;

    open spec fn wf(&self) -> bool {
        self.valid()
    }

    fn open(&mut self, path: &KPath, flags: OpenFlags) -> (r: Result<MemFileHandle>)
        ensures
            final(self).wf(),
            final(self)@ == open_spec(old(self)@, path@, flags).0,
            match r {
                Ok(h) => open_spec(old(self)@, path@, flags).1 == Ok::<HandleView, FsError>(h@),
                Err(e) => open_spec(old(self)@, path@, flags).1 == Err::<HandleView, FsError>(e),
            },
    {
        let path_str = self.normalize_path(path);
        let ghost p = path_str@;
        let (exists, is_dir) = match self.nodes.get(path_str.as_str()) {
            Some(MemNode::Dir(_)) => (true, true),
            Some(MemNode::File(_)) => (true, false),
            None => (false, false),
        };
        if is_dir {
            return Err(FsError::IsDir);
        }
        if exists && flags.truncate {
            let empty: Vec<u8> = Vec::new();
            self.nodes.insert(path_str.clone(), MemNode::File(empty));
            assert(empty@ =~= Seq::<u8>::empty());
        }
        let ghost fs1 = self@;
        assert(fs1 =~= (if exists && flags.truncate {
            old(self)@.insert(p, NodeView::File(Seq::empty()))
        } else {
            old(self)@
        }));
        if !exists {
            if flags.create {
                let parent = match self.get_parent(path_str.as_str()) {
                    Some(par) => par,
                    None => {
                        return Err(FsError::NotFound);
                    },
                };
                self.ensure_dir_exists(parent.as_str())?;
                let empty: Vec<u8> = Vec::new();
                self.nodes.insert(path_str.clone(), MemNode::File(empty));
                assert(empty@ =~= Seq::<u8>::empty());
                assert(self@ =~= fs1.insert(p, NodeView::File(Seq::empty())));
                let name = self.get_name(path_str.as_str());
                self.add_entry(parent.as_str(), name);
            } else {
                return Err(FsError::NotFound);
            }
        }
        let offset: u64 = if flags.append {
            match self.nodes.get(path_str.as_str()) {
                Some(MemNode::File(data)) => data.len() as u64,
                _ => 0,
            }
        } else {
            0
        };
        Ok(MemFileHandle { path: path_str, offset, append: flags.append })
    }

    fn stat(&self, path: &KPath) -> (r: Result<Metadata>)
        ensures
            r == stat_spec(self@, path@),
    {
        let path_str = self.normalize_path(path);
        match self.nodes.get(path_str.as_str()) {
            Some(MemNode::File(data)) => Ok(Metadata { node_type: NodeType::File, size: data.len() as u64 }),
            Some(MemNode::Dir(_)) => Ok(Metadata { node_type: NodeType::Dir, size: 0 }),
            None => Err(FsError::NotFound),
        }
    }

    fn readdir(&self, path: &KPath) -> (r: Result<Vec<DirEntry>>)
        ensures
            match r {
                Ok(v) => readdir_spec(self@, path@) == Ok::<Seq<(Seq<char>, NodeType)>, FsError>(
                    v@.map_values(|e: DirEntry| e@),
                ),
                Err(e) => readdir_spec(self@, path@) == Err::<Seq<(Seq<char>, NodeType)>, FsError>(e),
            },
    {
        let path_str = self.normalize_path(path);
        match self.nodes.get(path_str.as_str()) {
            None => Err(FsError::NotFound),
            Some(MemNode::File(_)) => Err(FsError::NotDir),
            Some(MemNode::Dir(names)) => {
                let ghost p = path_str@;
                proof {
                    assert(names.wf());
                    names.lemma_view();
                    lemma_sorted_of(names.keys());
                }
                let pc = to_chars(path_str.as_str());
                let tn = trim_end_len(&pc, pc.len(), '/');
                let mut base = string_of(&pc, 0, tn);
                base.append("/");
                proof {
                    reveal_strlit("/");
                    assert(pc@.take(pc@.len() as int) =~= pc@);
                    assert(pc@.take(tn as int) =~= pc@.subrange(0, tn as int));
                    assert(base@ =~= trim_end_char(p, '/') + slash());
                }
                let mut result: Vec<DirEntry> = Vec::new();
                let mut i: usize = 0;
                while i < names.len()
                    invariant
                        self.valid(),
                        names.wf(),
                        i <= names.keys().len(),
                        base@ == trim_end_char(p, '/') + slash(),
                        result@.map_values(|e: DirEntry| e@) == listing(
                            self@,
                            p,
                            names.keys().take(i as int),
                        ),
                    decreases names.keys().len() - i,
                {
                    let name = names.key_at(i);
                    let mut child = base.clone();
                    child.append(name.as_str());
                    let ghost before = result@.map_values(|e: DirEntry| e@);
                    proof {
                        assert(names.keys().take(i + 1).drop_last() =~= names.keys().take(i as int));
                        assert(child@ == child_path(p, names.keys()[i as int]));
                    }
                    match self.nodes.get(child.as_str()) {
                        Some(node) => {
                            let t = match node {
                                MemNode::File(_) => NodeType::File,
                                MemNode::Dir(_) => NodeType::Dir,
                            };
                            result.push(DirEntry { name: name.clone(), node_type: t });
                            assert(result@.map_values(|e: DirEntry| e@) =~= before.push(
                                (names.keys()[i as int], node_type_of(self@[child@])),
                            ));
                        },
                        None => {},
                    }
                    i = i + 1;
                }
                proof {
                    assert(names.keys().take(i as int) =~= names.keys());
                }
                Ok(result)
            },
        }
    }

    fn mkdir(&mut self, path: &KPath) -> (r: Result<()>)
        ensures
            final(self).wf(),
            (final(self)@, r) == mkdir_spec(old(self)@, path@),
    {
        let path_str = self.normalize_path(path);
        if self.nodes.contains_key(path_str.as_str()) {
            return Err(FsError::AlreadyExists);
        }
        let parent = match self.get_parent(path_str.as_str()) {
            Some(par) => par,
            None => {
                return Err(FsError::NotFound);
            },
        };
        self.ensure_dir_exists(parent.as_str())?;
        let name = self.get_name(path_str.as_str());
        let empty: StrMap<()> = StrMap::new();
        self.nodes.insert(path_str.clone(), MemNode::Dir(empty));
        proof {
            assert(empty@.dom() =~= Set::<Seq<char>>::empty());
            assert(self@ =~= old(self)@.insert(path_str@, NodeView::Dir(Set::empty())));
        }
        self.add_entry(parent.as_str(), name);
        Ok(())
    }

    fn unlink(&mut self, path: &KPath) -> (r: Result<()>)
        ensures
            final(self).wf(),
            (final(self)@, r) == unlink_spec(old(self)@, path@),
    {
        let path_str = self.normalize_path(path);
        match self.nodes.get(path_str.as_str()) {
            Some(MemNode::Dir(entries)) => {
                proof {
                    entries.lemma_view();
                }
                if entries.len() != 0 {
                    proof {
                        assert(entries@.dom().contains(entries.keys()[0]));
                    }
                    return Err(FsError::NotEmpty);
                }
                proof {
                    assert(entries@.dom() =~= Set::<Seq<char>>::empty());
                }
            },
            None => {
                return Err(FsError::NotFound);
            },
            _ => {},
        }
        let parent = match self.get_parent(path_str.as_str()) {
            Some(par) => par,
            None => {
                return Err(FsError::NotFound);
            },
        };
        let name = self.get_name(path_str.as_str());
        self.remove_entry(parent.as_str(), name.as_str());
        let _ = self.nodes.remove(path_str.as_str());
        Ok(())
    }

    fn rename(&mut self, from: &KPath, to: &KPath) -> (r: Result<()>)
        ensures
            final(self).wf(),
            (final(self)@, r) == rename_spec(old(self)@, from@, to@),
    {
        let from_str = self.normalize_path(from);
        let to_str = self.normalize_path(to);
        if !self.nodes.contains_key(from_str.as_str()) {
            return Err(FsError::NotFound);
        }
        if self.nodes.contains_key(to_str.as_str()) {
            return Err(FsError::AlreadyExists);
        }
        let from_parent = match self.get_parent(from_str.as_str()) {
            Some(par) => par,
            None => {
                return Err(FsError::NotFound);
            },
        };
        let to_parent = match self.get_parent(to_str.as_str()) {
            Some(par) => par,
            None => {
                return Err(FsError::NotFound);
            },
        };
        let from_name = self.get_name(from_str.as_str());
        let to_name = self.get_name(to_str.as_str());
        match self.nodes.remove(from_str.as_str()) {
            Some(node) => {
                self.nodes.insert(to_str.clone(), node);
            },
            None => {},
        }
        assert(self@ =~= old(self)@.remove(from_str@).insert(to_str@, old(self)@[from_str@]));
        self.remove_entry(from_parent.as_str(), from_name.as_str());
        self.add_entry(to_parent.as_str(), to_name);
        Ok(())
    }
}

} // verus!

verus! {

// ---------------------------------------------------------------------
// Open files
// ---------------------------------------------------------------------

/// The bytes that a read of up to `len` bytes returns: those from the
/// position on, or none at or past the end.
pub open spec fn read_spec(fs: FsView, h: HandleView, len: nat) -> core::result::Result<
    Seq<u8>,
    FsError,
> {
    if !fs.contains_key(h.path) {
        Err(FsError::NotFound)
    } else {
        match fs[h.path] {
            NodeView::Dir(_) => Err(FsError::IsDir),
            NodeView::File(d) => if h.offset >= d.len() {
                Ok(seq![])
            } else if h.offset + len <= d.len() {
                Ok(d.subrange(h.offset as int, h.offset + len))
            } else {
                Ok(d.subrange(h.offset as int, d.len() as int))
            },
        }
    }
}

/// `d` with `data` written at `start`, zero-filled up to `start` if `d` is
/// shorter.
pub open spec fn splice(d: Seq<u8>, start: nat, data: Seq<u8>) -> Seq<u8> {
    let end = start + data.len();
    Seq::new(
        if end > d.len() {
            end
        } else {
            d.len()
        },
        |i: int|
            if start <= i < end {
                data[i - start]
            } else if i < d.len() {
                d[i]
            } else {
                0u8
            },
    )
}

/// The state, the new position and the result of writing `data`: at the
/// end for an appending handle, else at the position.
pub open spec fn write_spec(fs: FsView, h: HandleView, data: Seq<u8>) -> (
    FsView,
    u64,
    core::result::Result<usize, FsError>,
) {
    if !fs.contains_key(h.path) {
        (fs, h.offset, Err(FsError::NotFound))
    } else {
        match fs[h.path] {
            NodeView::Dir(_) => (fs, h.offset, Err(FsError::IsDir)),
            NodeView::File(d) => if h.append {
                let nd = d + data;
                (fs.insert(h.path, NodeView::File(nd)), nd.len() as u64, Ok(data.len() as usize))
            } else {
                let nd = splice(d, h.offset as nat, data);
                (
                    fs.insert(h.path, NodeView::File(nd)),
                    (h.offset + data.len()) as u64,
                    Ok(data.len() as usize),
                )
            },
        }
    }
}

/// The size that a seek from the end counts from.
pub open spec fn seek_size(fs: FsView, p: Seq<char>) -> int {
    match fs[p] {
        NodeView::File(d) => d.len() as int,
        NodeView::Dir(_) => 0,
    }
}

/// The position a seek asks for; a start past `i64::MAX` reads as negative.
pub open spec fn seek_target(fs: FsView, h: HandleView, pos: SeekFrom) -> int {
    match pos {
        SeekFrom::Start(n) => if n <= i64::MAX {
            n as int
        } else {
            -1
        },
        SeekFrom::Current(n) => h.offset + n,
        SeekFrom::End(n) => seek_size(fs, h.path) + n,
    }
}

/// The new position, or the error, of a seek.
pub open spec fn seek_spec(fs: FsView, h: HandleView, pos: SeekFrom) -> core::result::Result<
    u64,
    FsError,
> {
    if !fs.contains_key(h.path) {
        Err(FsError::NotFound)
    } else if seek_target(fs, h, pos) < 0 {
        Err(FsError::InvalidPath)
    } else {
        Ok(seek_target(fs, h, pos) as u64)
    }
}

/// What `stat` reports of an open file.
pub open spec fn handle_stat_spec(fs: FsView, h: HandleView) -> core::result::Result<
    Metadata,
    FsError,
> {
    if fs.contains_key(h.path) {
        Ok(metadata_of(fs[h.path]))
    } else {
        Err(FsError::NotFound)
    }
}

/// A write of `len` bytes through `h` stays within the address space: the
/// file grows to at most `usize::MAX` bytes when appending, and the write
/// ends by `usize::MAX` otherwise.
pub open spec fn write_fits_spec(fs: FsView, h: HandleView, len: nat) -> bool {
    if h.append {
        file_len(fs, h.path) + len <= usize::MAX
    } else {
        h.offset + len <= usize::MAX
    }
}

/// The position a seek computes is an `i64`: for a seek from the current
/// position, the position and the sum; for a seek from the end of an
/// existing node, its size and the sum.
pub open spec fn seek_fits_spec(fs: FsView, h: HandleView, pos: SeekFrom) -> bool {
    match pos {
        SeekFrom::Start(_) => true,
        SeekFrom::Current(n) => h.offset <= i64::MAX && i64::MIN <= h.offset + n <= i64::MAX,
        SeekFrom::End(n) => fs.contains_key(h.path) ==> (file_len(fs, h.path) <= i64::MAX && i64::MIN
            <= seek_size(fs, h.path) + n <= i64::MAX),
    }
}

/// An open file of a `MemFs`: the file's path, the position and whether
/// writes go to the end. Its operations take the file system.
pub struct MemFileHandle {
    path: String,
    offset: u64,
    append: bool,
}

impl View for MemFileHandle {
    type V = HandleView;

    closed spec fn view(&self) -> HandleView {
        HandleView { path: self.path@, offset: self.offset, append: self.append }
    }
}

impl FileHandle for MemFileHandle {
    type Fs = MemFs;

    open spec fn fs_wf(fs: &MemFs) -> bool {
        fs.valid()
    }

    open spec fn write_fits(&self, fs: &MemFs, len: nat) -> bool {
        write_fits_spec(fs@, self@, len)
    }

    open spec fn seek_fits(&self, fs: &MemFs, pos: SeekFrom) -> bool {
        seek_fits_spec(fs@, self@, pos)
    }

    fn read(&mut self, fs: &MemFs, buf: &mut [u8]) -> (r: Result<usize>)
        ensures
            match (r, read_spec(fs@, old(self)@, old(buf)@.len())) {
                (Ok(n), Ok(bytes)) => {
                    &&& n == bytes.len()
                    &&& final(buf)@ == bytes + old(buf)@.skip(n as int)
                    &&& final(self)@ == (HandleView { offset: (old(self)@.offset + n) as u64, ..old(self)@ })
                },
                (Err(e), Err(e2)) => e == e2 && final(self)@ == old(self)@ && final(buf)@ == old(buf)@,
                _ => false,
            },
    {
        match fs.nodes.get(self.path.as_str()) {
            Some(MemNode::File(data)) => {
                if self.offset >= data.len() as u64 {
                    assert(buf@.skip(0) =~= buf@);
                    return Ok(0);
                }
                let offset = self.offset as usize;
                let end = if buf.len() <= data.len() - offset {
                    offset + buf.len()
                } else {
                    data.len()
                };
                let to_read = end - offset;
                let mut k: usize = 0;
                while k < to_read
                    invariant
                        k <= to_read <= buf@.len(),
                        offset + to_read == end <= data@.len(),
                        buf@.len() == old(buf)@.len(),
                        forall|j: int| 0 <= j < k ==> buf@[j] == data@[offset + j],
                        forall|j: int| k <= j < buf@.len() ==> buf@[j] == old(buf)@[j],
                    decreases to_read - k,
                {
                    buf[k] = data[offset + k];
                    k = k + 1;
                }
                self.offset = self.offset + to_read as u64;
                proof {
                    let bytes = data@.subrange(offset as int, end as int);
                    assert(buf@ =~= bytes + old(buf)@.skip(to_read as int));
                }
                Ok(to_read)
            },
            Some(MemNode::Dir(_)) => Err(FsError::IsDir),
            None => Err(FsError::NotFound),
        }
    }

    fn write(&mut self, fs: &mut MemFs, buf: &[u8]) -> (r: Result<usize>)
        ensures
            MemFileHandle::fs_wf(final(fs)),
            final(fs)@ == write_spec(old(fs)@, old(self)@, buf@).0,
            final(self)@ == (HandleView { offset: write_spec(old(fs)@, old(self)@, buf@).1, ..old(self)@ }),
            r == write_spec(old(fs)@, old(self)@, buf@).2,
    {
        match fs.nodes.remove(self.path.as_str()) {
            Some(MemNode::File(mut data)) => {
                let ghost d = data@;
                if self.append {
                    let mut k: usize = 0;
                    while k < buf.len()
                        invariant
                            k <= buf@.len(),
                            d.len() + buf@.len() <= usize::MAX,
                            data@ == d + buf@.take(k as int),
                        decreases buf@.len() - k,
                    {
                        data.push(buf[k]);
                        k = k + 1;
                        assert(data@ =~= d + buf@.take(k as int));
                    }
                    assert(buf@.take(buf@.len() as int) =~= buf@);
                    self.offset = data.len() as u64;
                } else {
                    let start = self.offset as usize;
                    let end = start + buf.len();
                    while data.len() < end
                        invariant
                            d.len() <= data@.len(),
                            data@.len() <= end || data@.len() == d.len(),
                            data@.subrange(0, d.len() as int) == d,
                            forall|j: int| d.len() <= j < data@.len() ==> data@[j] == 0u8,
                        decreases end - data@.len(),
                    {
                        data.push(0u8);
                    }
                    let ghost filled = data@;
                    assert(forall|j: int| d.len() <= j < filled.len() ==> filled[j] == 0u8);
                    assert(filled.len() == if end > d.len() {
                        end as nat
                    } else {
                        d.len()
                    });
                    let mut k: usize = 0;
                    while k < buf.len()
                        invariant
                            start + buf@.len() == end <= data@.len(),
                            data@.len() == filled.len(),
                            k <= buf@.len(),
                            forall|j: int| 0 <= j < k ==> data@[start + j] == buf@[j],
                            forall|j: int|
                                0 <= j < data@.len() && !(start <= j < start + k) ==> data@[j]
                                    == filled[j],
                        decreases buf@.len() - k,
                    {
                        data.set(start + k, buf[k]);
                        k = k + 1;
                    }
                    self.offset = end as u64;
                    proof {
                        assert forall|j: int| 0 <= j < d.len() implies filled[j] == d[j] by {
                            assert(filled.subrange(0, d.len() as int)[j] == filled[j]);
                        }
                        assert(start == old(self)@.offset);
                        let sp = splice(d, old(self)@.offset as nat, buf@);
                        assert(data@.len() == sp.len());
                        assert forall|j: int| 0 <= j < data@.len() implies data@[j] == sp[j] by {
                            if start <= j < end {
                                assert(data@[start + (j - start)] == buf@[j - start]);
                            } else {
                                assert(data@[j] == filled[j]);
                                if j < d.len() {
                                    assert(filled[j] == d[j]);
                                } else {
                                    assert(filled[j] == 0u8);
                                }
                            }
                        }
                        assert(data@ =~= sp);
                    }
                }
                fs.nodes.insert(self.path.clone(), MemNode::File(data));
                assert(fs@ =~= write_spec(old(fs)@, old(self)@, buf@).0);
                Ok(buf.len())
            },
            Some(node) => {
                fs.nodes.insert(self.path.clone(), node);
                assert(fs@ =~= old(fs)@);
                Err(FsError::IsDir)
            },
            None => {
                assert(fs@ =~= old(fs)@);
                Err(FsError::NotFound)
            },
        }
    }

    fn seek(&mut self, fs: &MemFs, pos: SeekFrom) -> (r: Result<u64>)
        ensures
            r == seek_spec(fs@, old(self)@, pos),
            final(self)@ == (match r {
                Ok(o) => HandleView { offset: o, ..old(self)@ },
                Err(_) => old(self)@,
            }),
    {
        let size: i64 = match fs.nodes.get(self.path.as_str()) {
            Some(MemNode::File(data)) => data.len() as i64,
            Some(MemNode::Dir(_)) => 0,
            None => {
                return Err(FsError::NotFound);
            },
        };
        let new_offset: i64 = match pos {
            SeekFrom::Start(n) => {
                if n > i64::MAX as u64 {
                    return Err(FsError::InvalidPath);
                }
                n as i64
            },
            SeekFrom::Current(n) => self.offset as i64 + n,
            SeekFrom::End(n) => size + n,
        };
        if new_offset < 0 {
            return Err(FsError::InvalidPath);
        }
        self.offset = new_offset as u64;
        Ok(self.offset)
    }

    fn stat(&self, fs: &MemFs) -> (r: Result<Metadata>)
        ensures
            r == handle_stat_spec(fs@, self@),
    {
        match fs.nodes.get(self.path.as_str()) {
            Some(MemNode::File(data)) => Ok(Metadata { node_type: NodeType::File, size: data.len() as u64 }),
            Some(MemNode::Dir(_)) => Ok(Metadata { node_type: NodeType::Dir, size: 0 }),
            None => Err(FsError::NotFound),
        }
    }
}

} // verus!
