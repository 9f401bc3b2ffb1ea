//! The file system builtins of the shell: pwd, ls, cat, mkdir, rm, touch,
//! cp and mv, with what each writes and what it does to the namespace.
use vstd::prelude::*;

use crate::fs::memfs::NodeView;
use crate::vfs::namespace::{
    ns_mkdir, ns_open, ns_readdir, ns_rename, ns_unlink, ns_write, Namespace,
    NsFile, NsFileView, NsView,
};
use crate::strs::{decode_lossy, to_chars, trim_end_char, trim_end_len, string_of, utf8_lossy};
use crate::vfs::traits::{FsError, KPath, NodeType, OpenFlags};

verus! {

/// The views of a list of strings.
pub open spec fn arg_views(args: Seq<String>) -> Seq<Seq<char>> {
    args.map_values(|a: String| a@)
}

/// An argument made absolute against the working directory.
pub open spec fn resolve_path_spec(cwd: Seq<char>, path: Seq<char>) -> Seq<char> {
    if path.len() > 0 && path[0] == '/' {
        path
    } else {
        trim_end_char(cwd, '/') + seq!['/'] + path
    }
}

/// The message that names an error.
pub open spec fn fs_error_msg(e: FsError) -> Seq<char> {
    match e {
        FsError::NotFound => "No such file or directory"@,
        FsError::AlreadyExists => "File exists"@,
        FsError::NotDir => "Not a directory"@,
        FsError::IsDir => "Is a directory"@,
        FsError::PermissionDenied => "Permission denied"@,
        FsError::InvalidPath => "Invalid path"@,
        FsError::NotEmpty => "Directory not empty"@,
        FsError::IoError => "I/O error"@,
        FsError::BadFileDescriptor => "Bad file descriptor"@,
        FsError::NotImplemented => "Not implemented"@,
    }
}

pub open spec fn read_flags() -> OpenFlags {
    OpenFlags { read: true, write: false, create: false, truncate: false, append: false }
}

pub open spec fn create_flags() -> OpenFlags {
    OpenFlags { read: false, write: true, create: true, truncate: false, append: false }
}

pub open spec fn truncate_flags() -> OpenFlags {
    OpenFlags { read: false, write: true, create: true, truncate: true, append: false }
}

/// What reading an open file to its end gives: the bytes from its
/// position on.
pub open spec fn read_rest(ns: NsView, f: NsFileView) -> core::result::Result<Seq<u8>, FsError> {
    if !ns.contains_key(f.mount) {
        Err(FsError::BadFileDescriptor)
    } else if !ns[f.mount].contains_key(f.handle.path) {
        Err(FsError::NotFound)
    } else {
        match ns[f.mount][f.handle.path] {
            NodeView::Dir(_) => Err(FsError::IsDir),
            NodeView::File(d) => Ok(
                if f.handle.offset < d.len() {
                    d.skip(f.handle.offset as int)
                } else {
                    seq![]
                },
            ),
        }
    }
}

/// The bytes decoded in reads of 1024 bytes, each read decoded alone.
pub open spec fn chunked_lossy(b: Seq<u8>) -> Seq<char>
    decreases b.len(),
{
    if b.len() == 0 {
        seq![]
    } else if b.len() <= 1024 {
        utf8_lossy(b)
    } else {
        utf8_lossy(b.take(1024)) + chunked_lossy(b.skip(1024))
    }
}

pub fn resolve_path(cwd: &str, path: &str) -> (p: KPath)
    ensures
        p@ == resolve_path_spec(cwd@, path@),
{
    let pc = to_chars(path);
    if pc.len() > 0 && pc[0] == '/' {
        KPath::new(path)
    } else {
        let cc = to_chars(cwd);
        let n = trim_end_len(&cc, cc.len(), '/');
        let mut s = string_of(&cc, 0, n);
        s.append("/");
        s.append(path);
        proof {
            reveal_strlit("/");
            assert(cc@.take(cc@.len() as int) =~= cc@);
            assert(cc@.take(n as int) =~= cc@.subrange(0, n as int));
            assert(s@ =~= trim_end_char(cwd@, '/') + seq!['/'] + path@);
        }
        KPath(s)
    }
}

pub fn fs_error_str(e: FsError) -> (s: &'static str)
    ensures
        s@ == fs_error_msg(e),
{
    match e {
        FsError::NotFound => "No such file or directory",
        FsError::AlreadyExists => "File exists",
        FsError::NotDir => "Not a directory",
        FsError::IsDir => "Is a directory",
        FsError::PermissionDenied => "Permission denied",
        FsError::InvalidPath => "Invalid path",
        FsError::NotEmpty => "Directory not empty",
        FsError::IoError => "I/O error",
        FsError::BadFileDescriptor => "Bad file descriptor",
        FsError::NotImplemented => "Not implemented",
    }
}

/// A buffer of `n` zero bytes.
fn zeroed(n: usize) -> (v: Vec<u8>)
    ensures
        v@.len() == n,
{
    let mut v: Vec<u8> = Vec::new();
    let mut k: usize = 0;
    while k < n
        invariant
            k <= n,
            v@.len() == k,
        decreases n - k,
    {
        v.push(0u8);
        k = k + 1;
    }
    v
}

/// The bytes `buf[..n]`.
fn prefix_bytes(buf: &Vec<u8>, n: usize) -> (v: Vec<u8>)
    requires
        n <= buf@.len(),
    ensures
        v@ == buf@.take(n as int),
{
    let mut v: Vec<u8> = Vec::new();
    let mut k: usize = 0;
    while k < n
        invariant
            k <= n <= buf@.len(),
            v@ == buf@.take(k as int),
        decreases n - k,
    {
        v.push(buf[k]);
        k = k + 1;
        assert(v@ =~= buf@.take(k as int));
    }
    v
}

/// One read of up to `len` bytes gives the first bytes of what reading to
/// the end gives, or the same error.
proof fn lemma_read_chunk(ns: NsView, f: NsFileView, len: nat)
    ensures
        match read_rest(ns, f) {
            Ok(rest) => crate::vfs::namespace::ns_read(ns, f, len) == Ok::<Seq<u8>, FsError>(
                if rest.len() <= len {
                    rest
                } else {
                    rest.take(len as int)
                },
            ),
            Err(e) => crate::vfs::namespace::ns_read(ns, f, len) == Err::<Seq<u8>, FsError>(e),
        },
{
    if ns.contains_key(f.mount) && ns[f.mount].contains_key(f.handle.path) {
        match ns[f.mount][f.handle.path] {
            NodeView::File(d) => {
                if f.handle.offset < d.len() {
                    let rest = d.skip(f.handle.offset as int);
                    if rest.len() <= len {
                        assert(d.subrange(f.handle.offset as int, d.len() as int) =~= rest);
                    } else {
                        assert(d.subrange(f.handle.offset as int, f.handle.offset + len) =~= rest.take(
                            len as int,
                        ));
                    }
                }
            },
            NodeView::Dir(_) => {},
        }
    }
}

/// After a read of `n` bytes, reading to the end gives the rest.
proof fn lemma_read_advance(ns: NsView, before: NsFileView, after: NsFileView, n: nat)
    requires
        read_rest(ns, before) is Ok,
        0 < n <= read_rest(ns, before)->Ok_0.len(),
        after.mount == before.mount,
        after.handle.path == before.handle.path,
        after.handle.offset == before.handle.offset + n,
    ensures
        read_rest(ns, after) == Ok::<Seq<u8>, FsError>(read_rest(ns, before)->Ok_0.skip(n as int)),
{
    let d = ns[before.mount][before.handle.path]->File_0;
    let rest = read_rest(ns, before)->Ok_0;
    assert(rest =~= d.skip(before.handle.offset as int));
    if after.handle.offset < d.len() {
        assert(d.skip(after.handle.offset as int) =~= rest.skip(n as int));
    } else {
        assert(rest.skip(n as int) =~= Seq::<u8>::empty());
    }
}

/// The position of `f` counted back from the end of its file, which each
/// successful read brings down.
pub open spec fn rest_len(ns: NsView, f: NsFileView) -> nat {
    match read_rest(ns, f) {
        Ok(b) => b.len(),
        Err(_) => 0,
    }
}

/// Reads an open file to its end, 1024 bytes at a time, decoding each
/// chunk and appending it to `out` as it goes.
fn read_decoding(ns: &Namespace, f: &mut NsFile, out: &mut String) -> (r: Result<(), FsError>)
    requires
        ns.valid(),
    ensures
        match read_rest(ns@, old(f)@) {
            Ok(b) => r is Ok && final(out)@ == old(out)@ + chunked_lossy(b),
            Err(e) => r == Err::<(), FsError>(e) && final(out)@ == old(out)@,
        },
{
    let mut buf = zeroed(1024);
    let ghost f0 = f@;
    loop
        invariant
            ns.valid(),
            buf@.len() == 1024,
            f0 == old(f)@,
            f@.mount == f0.mount,
            f@.handle.path == f0.handle.path,
            match read_rest(ns@, f0) {
                Ok(all) => read_rest(ns@, f@) is Ok && out@ + chunked_lossy(read_rest(ns@, f@)->Ok_0) == old(out)@ + chunked_lossy(all),
                Err(e) => read_rest(ns@, f@) == Err::<Seq<u8>, FsError>(e) && out@ == old(out)@,
            },
        decreases rest_len(ns@, f@),
    {
        let ghost before = f@;
        proof {
            lemma_read_chunk(ns@, before, 1024);
            ns.lemma_sizes_fit();
        }
        match ns.read(f, buf.as_mut_slice()) {
            Ok(n) => {
                if n == 0 {
                    proof {
                        assert(read_rest(ns@, before)->Ok_0.len() == 0);
                    }
                    return Ok(());
                }
                let chunk = prefix_bytes(&buf, n);
                let s = decode_lossy(chunk.as_slice());
                out.append(s.as_str());
                proof {
                    let rest = read_rest(ns@, before)->Ok_0;
                    let d = ns@[before.mount][before.handle.path]->File_0;
                    assert(chunk@ == rest.take(n as int));
                    lemma_read_advance(ns@, before, f@, n as nat);
                    if rest.len() > 1024 {
                        assert(n == 1024);
                    } else {
                        assert(n == rest.len());
                        assert(rest.take(n as int) =~= rest);
                        assert(rest.skip(n as int) =~= Seq::<u8>::empty());
                    }
                }
            },
            Err(e) => {
                return Err(e);
            },
        }
    }
}

/// Reads an open file to its end, 1024 bytes at a time.
pub(crate) fn read_to_end(ns: &Namespace, f: &mut NsFile) -> (r: Result<Vec<u8>, FsError>)
    requires
        ns.valid(),
    ensures
        match r {
            Ok(v) => read_rest(ns@, old(f)@) == Ok::<Seq<u8>, FsError>(v@),
            Err(e) => read_rest(ns@, old(f)@) == Err::<Seq<u8>, FsError>(e),
        },
{
    let mut buf = zeroed(1024);
    let mut content: Vec<u8> = Vec::new();
    let ghost f0 = f@;
    loop
        invariant
            ns.valid(),
            buf@.len() == 1024,
            f0 == old(f)@,
            f@.mount == f0.mount,
            f@.handle.path == f0.handle.path,
            match read_rest(ns@, f0) {
                Ok(all) => read_rest(ns@, f@) is Ok && content@ + read_rest(ns@, f@)->Ok_0 == all,
                Err(e) => read_rest(ns@, f@) == Err::<Seq<u8>, FsError>(e) && content@.len() == 0,
            },
        decreases rest_len(ns@, f@),
    {
        let ghost before = f@;
        let ghost prev = content@;
        proof {
            lemma_read_chunk(ns@, before, 1024);
            ns.lemma_sizes_fit();
        }
        match ns.read(f, buf.as_mut_slice()) {
            Ok(n) => {
                if n == 0 {
                    proof {
                        assert(read_rest(ns@, before)->Ok_0.len() == 0);
                        assert(content@ =~= prev + read_rest(ns@, before)->Ok_0);
                    }
                    return Ok(content);
                }
                let mut k: usize = 0;
                while k < n
                    invariant
                        k <= n <= buf@.len(),
                        content@ == prev + buf@.take(k as int),
                    decreases n - k,
                {
                    content.push(buf[k]);
                    k = k + 1;
                    assert(content@ =~= prev + buf@.take(k as int));
                }
                proof {
                    let rest = read_rest(ns@, before)->Ok_0;
                    assert(buf@.take(n as int) =~= rest.take(n as int));
                    lemma_read_advance(ns@, before, f@, n as nat);
                    assert(content@ + read_rest(ns@, f@)->Ok_0 =~= prev + rest);
                }
            },
            Err(e) => {
                return Err(e);
            },
        }
    }
}

} // verus!

verus! {

// ---------------------------------------------------------------------
// What each builtin writes and does
// ---------------------------------------------------------------------

/// An error line: `<prefix><path><middle><message>\r\n`.
pub open spec fn error_line(prefix: Seq<char>, path: Seq<char>, middle: Seq<char>, e: FsError) -> Seq<char> {
    prefix + path + middle + fs_error_msg(e) + "\r\n"@
}

pub open spec fn pwd_run(ns: NsView, cwd: Seq<char>) -> (NsView, Seq<char>, i32) {
    (ns, cwd + "\r\r\n"@, 0)
}

/// One line per entry, directories marked with a trailing `/`.
pub open spec fn ls_text(es: Seq<(Seq<char>, NodeType)>) -> Seq<char>
    decreases es.len(),
{
    if es.len() == 0 {
        seq![]
    } else {
        ls_text(es.drop_last()) + es.last().0 + (if es.last().1 == NodeType::Dir {
            "/"@
        } else {
            seq![]
        }) + "\r\n"@
    }
}

/// The directory that `ls` lists: the working directory, or the first
/// argument.
pub open spec fn ls_target(cwd: Seq<char>, args: Seq<Seq<char>>) -> Seq<char> {
    if args.len() == 0 {
        cwd
    } else {
        resolve_path_spec(cwd, args[0])
    }
}

pub open spec fn ls_run(ns: NsView, cwd: Seq<char>, args: Seq<Seq<char>>) -> (NsView, Seq<char>, i32) {
    let path = ls_target(cwd, args);
    match ns_readdir(ns, path) {
        Ok(es) => (ns, ls_text(es), 0),
        Err(e) => (ns, error_line("ls: "@, path, ": "@, e), 1),
    }
}

/// `cat` of each argument in turn: the file's text, or an error line.
pub open spec fn cat_each(ns: NsView, cwd: Seq<char>, args: Seq<Seq<char>>) -> (Seq<char>, i32)
    decreases args.len(),
{
    if args.len() == 0 {
        (seq![], 0)
    } else {
        let prev = cat_each(ns, cwd, args.drop_last());
        let path = resolve_path_spec(cwd, args.last());
        match ns_open(ns, path, read_flags()).1 {
            Err(e) => (prev.0 + error_line("cat: "@, path, ": "@, e), 1),
            Ok(f) => match read_rest(ns, f) {
                Ok(b) => (prev.0 + chunked_lossy(b), prev.1),
                Err(e) => (prev.0 + error_line("cat: "@, path, ": "@, e), 1),
            },
        }
    }
}

pub open spec fn cat_run(ns: NsView, cwd: Seq<char>, args: Seq<Seq<char>>) -> (NsView, Seq<char>, i32) {
    if args.len() == 0 {
        (ns, "cat: missing operand\r\n"@, 1)
    } else {
        (ns, cat_each(ns, cwd, args).0, cat_each(ns, cwd, args).1)
    }
}

/// `mkdir` of each argument in turn.
pub open spec fn mkdir_each(ns: NsView, cwd: Seq<char>, args: Seq<Seq<char>>) -> (NsView, Seq<char>, i32)
    decreases args.len(),
{
    if args.len() == 0 {
        (ns, seq![], 0)
    } else {
        let prev = mkdir_each(ns, cwd, args.drop_last());
        let path = resolve_path_spec(cwd, args.last());
        let step = ns_mkdir(prev.0, path);
        match step.1 {
            Ok(_) => (step.0, prev.1, prev.2),
            Err(e) => (step.0, prev.1 + error_line("mkdir: cannot create directory '"@, path, "': "@, e), 1),
        }
    }
}

pub open spec fn mkdir_run(ns: NsView, cwd: Seq<char>, args: Seq<Seq<char>>) -> (NsView, Seq<char>, i32) {
    if args.len() == 0 {
        (ns, "mkdir: missing operand\r\n"@, 1)
    } else {
        mkdir_each(ns, cwd, args)
    }
}

/// `rm` of each argument in turn.
pub open spec fn rm_each(ns: NsView, cwd: Seq<char>, args: Seq<Seq<char>>) -> (NsView, Seq<char>, i32)
    decreases args.len(),
{
    if args.len() == 0 {
        (ns, seq![], 0)
    } else {
        let prev = rm_each(ns, cwd, args.drop_last());
        let path = resolve_path_spec(cwd, args.last());
        let step = ns_unlink(prev.0, path);
        match step.1 {
            Ok(_) => (step.0, prev.1, prev.2),
            Err(e) => (step.0, prev.1 + error_line("rm: cannot remove '"@, path, "': "@, e), 1),
        }
    }
}

pub open spec fn rm_run(ns: NsView, cwd: Seq<char>, args: Seq<Seq<char>>) -> (NsView, Seq<char>, i32) {
    if args.len() == 0 {
        (ns, "rm: missing operand\r\n"@, 1)
    } else {
        rm_each(ns, cwd, args)
    }
}

/// `touch` of each argument in turn: opening it with `create`.
pub open spec fn touch_each(ns: NsView, cwd: Seq<char>, args: Seq<Seq<char>>) -> (NsView, Seq<char>, i32)
    decreases args.len(),
{
    if args.len() == 0 {
        (ns, seq![], 0)
    } else {
        let prev = touch_each(ns, cwd, args.drop_last());
        let path = resolve_path_spec(cwd, args.last());
        let step = ns_open(prev.0, path, create_flags());
        match step.1 {
            Ok(_) => (step.0, prev.1, prev.2),
            Err(e) => (step.0, prev.1 + error_line("touch: cannot touch '"@, path, "': "@, e), 1),
        }
    }
}

pub open spec fn touch_run(ns: NsView, cwd: Seq<char>, args: Seq<Seq<char>>) -> (NsView, Seq<char>, i32) {
    if args.len() == 0 {
        (ns, "touch: missing file operand\r\n"@, 1)
    } else {
        touch_each(ns, cwd, args)
    }
}

/// `cp src dst`: the bytes of `src` written over an emptied `dst`.
pub open spec fn cp_run(ns: NsView, cwd: Seq<char>, args: Seq<Seq<char>>) -> (NsView, Seq<char>, i32) {
    if args.len() < 2 {
        (ns, "cp: missing destination file operand\r\n"@, 1)
    } else {
        let src = resolve_path_spec(cwd, args[0]);
        let dst = resolve_path_spec(cwd, args[1]);
        match ns_open(ns, src, read_flags()).1 {
            Err(e) => (ns, error_line("cp: cannot stat '"@, src, "': "@, e), 1),
            Ok(f) => match read_rest(ns, f) {
                Err(e) => (ns, error_line("cp: cannot read '"@, src, "': "@, e), 1),
                Ok(content) => {
                    let opened = ns_open(ns, dst, truncate_flags());
                    match opened.1 {
                        Err(e) => (opened.0, error_line("cp: cannot create '"@, dst, "': "@, e), 1),
                        Ok(g) => {
                            let written = ns_write(opened.0, g, content);
                            match written.2 {
                                Err(e) => (written.0, error_line("cp: cannot write '"@, dst, "': "@, e), 1),
                                Ok(_) => (written.0, seq![], 0),
                            }
                        },
                    }
                },
            },
        }
    }
}

/// `mv src dst`: a rename.
pub open spec fn mv_run(ns: NsView, cwd: Seq<char>, args: Seq<Seq<char>>) -> (NsView, Seq<char>, i32) {
    if args.len() < 2 {
        (ns, "mv: missing destination file operand\r\n"@, 1)
    } else {
        let src = resolve_path_spec(cwd, args[0]);
        let dst = resolve_path_spec(cwd, args[1]);
        let step = ns_rename(ns, src, dst);
        match step.1 {
            Ok(_) => (step.0, seq![], 0),
            Err(e) => (step.0, error_line("mv: cannot move '"@, src, "': "@, e), 1),
        }
    }
}

/// Opening for reading changes nothing.
pub proof fn lemma_open_read_unchanged(ns: NsView, path: Seq<char>)
    ensures
        ns_open(ns, path, read_flags()).0 == ns,
{
    match crate::vfs::namespace::resolve_spec(ns, path) {
        Some((m, rel)) => {
            let c = choose|x: Seq<char>| crate::vfs::namespace::is_best_mount(ns.dom(), path, x);
            assert(ns.dom().contains(m));
            assert(ns.insert(m, crate::fs::memfs::open_spec(ns[m], rel, read_flags()).0) =~= ns);
        },
        None => {},
    }
}

/// A file opened with truncation is empty and read from its start.
pub proof fn lemma_open_truncate(ns: NsView, path: Seq<char>)
    ensures
        ns_open(ns, path, truncate_flags()).1 matches Ok(g) ==> {
            let ns2 = ns_open(ns, path, truncate_flags()).0;
            &&& g.handle.offset == 0
            &&& !g.handle.append
            &&& ns2.contains_key(g.mount)
            &&& crate::fs::memfs::file_len(ns2[g.mount], g.handle.path) == 0
        },
{
}

// ---------------------------------------------------------------------
// The builtins
// ---------------------------------------------------------------------

pub(crate) fn append_error(out: &mut String, prefix: &str, path: &str, middle: &str, e: FsError)
    ensures
        final(out)@ == old(out)@ + error_line(prefix@, path@, middle@, e),
{
    out.append(prefix);
    out.append(path);
    out.append(middle);
    out.append(fs_error_str(e));
    out.append("\r\n");
    proof {
        assert(out@ =~= old(out)@ + error_line(prefix@, path@, middle@, e));
    }
}

pub fn run_pwd(cwd: &str, out: &mut String) -> (code: i32)
    ensures
        final(out)@ == old(out)@ + cwd@ + "\r\r\n"@,
        code == 0,
{
    out.append(cwd);
    out.append("\r\r\n");
    0
}

pub fn run_ls(args: &[String], ns: &Namespace, cwd: &str, out: &mut String) -> (code: i32)
    requires
        ns.valid(),
    ensures
        final(out)@ == old(out)@ + ls_run(ns@, cwd@, arg_views(args@)).1,
        code == ls_run(ns@, cwd@, arg_views(args@)).2,
{
    let path = if args.len() == 0 {
        KPath::new(cwd)
    } else {
        resolve_path(cwd, args[0].as_str())
    };
    proof {
        assert(path@ == ls_target(cwd@, arg_views(args@)));
    }
    match ns.readdir(&path) {
        Ok(entries) => {
            let ghost es = entries@.map_values(|e: crate::vfs::traits::DirEntry| e@);
            let mut i: usize = 0;
            while i < entries.len()
                invariant
                    i <= entries@.len(),
                    es == entries@.map_values(|e: crate::vfs::traits::DirEntry| e@),
                    out@ == old(out)@ + ls_text(es.take(i as int)),
                decreases entries@.len() - i,
            {
                let ghost before = out@;
                out.append(entries[i].name.as_str());
                if entries[i].node_type == NodeType::Dir {
                    out.append("/");
                }
                out.append("\r\n");
                proof {
                    assert(es.take(i + 1).drop_last() =~= es.take(i as int));
                    assert(es[i as int] == entries@[i as int]@);
                    assert(out@ =~= old(out)@ + ls_text(es.take(i + 1)));
                }
                i = i + 1;
            }
            assert(es.take(entries@.len() as int) =~= es);
            0
        },
        Err(e) => {
            append_error(out, "ls: ", path.as_str(), ": ", e);
            1
        },
    }
}

pub fn run_cat(args: &[String], ns: &mut Namespace, cwd: &str, out: &mut String) -> (code: i32)
    requires
        old(ns).valid(),
    ensures
        final(ns).valid(),
        final(ns)@ == cat_run(old(ns)@, cwd@, arg_views(args@)).0,
        final(out)@ == old(out)@ + cat_run(old(ns)@, cwd@, arg_views(args@)).1,
        code == cat_run(old(ns)@, cwd@, arg_views(args@)).2,
{
    if args.len() == 0 {
        out.append("cat: missing operand\r\n");
        return 1;
    }
    let ghost views = arg_views(args@);
    let ghost ns0 = ns@;
    let mut code: i32 = 0;
    let mut i: usize = 0;
    while i < args.len()
        invariant
            ns.valid(),
            ns@ == ns0,
            i <= args@.len(),
            views == arg_views(args@),
            out@ == old(out)@ + cat_each(ns0, cwd@, views.take(i as int)).0,
            code == cat_each(ns0, cwd@, views.take(i as int)).1,
        decreases args@.len() - i,
    {
        proof {
            assert(views.take(i + 1).drop_last() =~= views.take(i as int));
            assert(views.take(i + 1).last() == args@[i as int]@);
            lemma_open_read_unchanged(ns@, resolve_path_spec(cwd@, args@[i as int]@));
        }
        let path = resolve_path(cwd, args[i].as_str());
        match ns.open(&path, OpenFlags::READ()) {
            Ok(mut file) => {
                match read_decoding(ns, &mut file, out) {
                    Ok(()) => {},
                    Err(e) => {
                        append_error(out, "cat: ", path.as_str(), ": ", e);
                        code = 1;
                    },
                }
            },
            Err(e) => {
                append_error(out, "cat: ", path.as_str(), ": ", e);
                code = 1;
            },
        }
        i = i + 1;
    }
    assert(views.take(args@.len() as int) =~= views);
    code
}

pub fn run_mkdir(args: &[String], ns: &mut Namespace, cwd: &str, out: &mut String) -> (code: i32)
    requires
        old(ns).valid(),
    ensures
        final(ns).valid(),
        final(ns)@ == mkdir_run(old(ns)@, cwd@, arg_views(args@)).0,
        final(out)@ == old(out)@ + mkdir_run(old(ns)@, cwd@, arg_views(args@)).1,
        code == mkdir_run(old(ns)@, cwd@, arg_views(args@)).2,
{
    if args.len() == 0 {
        out.append("mkdir: missing operand\r\n");
        return 1;
    }
    let ghost views = arg_views(args@);
    let ghost ns0 = ns@;
    let mut code: i32 = 0;
    let mut i: usize = 0;
    while i < args.len()
        invariant
            ns.valid(),
            i <= args@.len(),
            views == arg_views(args@),
            ns@ == mkdir_each(ns0, cwd@, views.take(i as int)).0,
            out@ == old(out)@ + mkdir_each(ns0, cwd@, views.take(i as int)).1,
            code == mkdir_each(ns0, cwd@, views.take(i as int)).2,
        decreases args@.len() - i,
    {
        proof {
            assert(views.take(i + 1).drop_last() =~= views.take(i as int));
            assert(views.take(i + 1).last() == args@[i as int]@);
        }
        let path = resolve_path(cwd, args[i].as_str());
        match ns.mkdir(&path) {
            Ok(_) => {},
            Err(e) => {
                append_error(out, "mkdir: cannot create directory '", path.as_str(), "': ", e);
                code = 1;
            },
        }
        i = i + 1;
    }
    assert(views.take(args@.len() as int) =~= views);
    code
}

pub fn run_rm(args: &[String], ns: &mut Namespace, cwd: &str, out: &mut String) -> (code: i32)
    requires
        old(ns).valid(),
    ensures
        final(ns).valid(),
        final(ns)@ == rm_run(old(ns)@, cwd@, arg_views(args@)).0,
        final(out)@ == old(out)@ + rm_run(old(ns)@, cwd@, arg_views(args@)).1,
        code == rm_run(old(ns)@, cwd@, arg_views(args@)).2,
{
    if args.len() == 0 {
        out.append("rm: missing operand\r\n");
        return 1;
    }
    let ghost views = arg_views(args@);
    let ghost ns0 = ns@;
    let mut code: i32 = 0;
    let mut i: usize = 0;
    while i < args.len()
        invariant
            ns.valid(),
            i <= args@.len(),
            views == arg_views(args@),
            ns@ == rm_each(ns0, cwd@, views.take(i as int)).0,
            out@ == old(out)@ + rm_each(ns0, cwd@, views.take(i as int)).1,
            code == rm_each(ns0, cwd@, views.take(i as int)).2,
        decreases args@.len() - i,
    {
        proof {
            assert(views.take(i + 1).drop_last() =~= views.take(i as int));
            assert(views.take(i + 1).last() == args@[i as int]@);
        }
        let path = resolve_path(cwd, args[i].as_str());
        match ns.unlink(&path) {
            Ok(_) => {},
            Err(e) => {
                append_error(out, "rm: cannot remove '", path.as_str(), "': ", e);
                code = 1;
            },
        }
        i = i + 1;
    }
    assert(views.take(args@.len() as int) =~= views);
    code
}

pub fn run_touch(args: &[String], ns: &mut Namespace, cwd: &str, out: &mut String) -> (code: i32)
    requires
        old(ns).valid(),
    ensures
        final(ns).valid(),
        final(ns)@ == touch_run(old(ns)@, cwd@, arg_views(args@)).0,
        final(out)@ == old(out)@ + touch_run(old(ns)@, cwd@, arg_views(args@)).1,
        code == touch_run(old(ns)@, cwd@, arg_views(args@)).2,
{
    if args.len() == 0 {
        out.append("touch: missing file operand\r\n");
        return 1;
    }
    let ghost views = arg_views(args@);
    let ghost ns0 = ns@;
    let mut code: i32 = 0;
    let mut i: usize = 0;
    while i < args.len()
        invariant
            ns.valid(),
            i <= args@.len(),
            views == arg_views(args@),
            ns@ == touch_each(ns0, cwd@, views.take(i as int)).0,
            out@ == old(out)@ + touch_each(ns0, cwd@, views.take(i as int)).1,
            code == touch_each(ns0, cwd@, views.take(i as int)).2,
        decreases args@.len() - i,
    {
        proof {
            assert(views.take(i + 1).drop_last() =~= views.take(i as int));
            assert(views.take(i + 1).last() == args@[i as int]@);
        }
        let path = resolve_path(cwd, args[i].as_str());
        match ns.open(&path, OpenFlags::CREATE()) {
            Ok(_) => {},
            Err(e) => {
                append_error(out, "touch: cannot touch '", path.as_str(), "': ", e);
                code = 1;
            },
        }
        i = i + 1;
    }
    assert(views.take(args@.len() as int) =~= views);
    code
}

pub fn run_cp(args: &[String], ns: &mut Namespace, cwd: &str, out: &mut String) -> (code: i32)
    requires
        old(ns).valid(),
    ensures
        final(ns).valid(),
        final(ns)@ == cp_run(old(ns)@, cwd@, arg_views(args@)).0,
        final(out)@ == old(out)@ + cp_run(old(ns)@, cwd@, arg_views(args@)).1,
        code == cp_run(old(ns)@, cwd@, arg_views(args@)).2,
{
    if args.len() < 2 {
        out.append("cp: missing destination file operand\r\n");
        return 1;
    }
    let src = resolve_path(cwd, args[0].as_str());
    let dst = resolve_path(cwd, args[1].as_str());
    proof {
        lemma_open_read_unchanged(ns@, src@);
    }
    let content = match ns.open(&src, OpenFlags::READ()) {
        Ok(mut file) => match read_to_end(ns, &mut file) {
            Ok(c) => c,
            Err(e) => {
                append_error(out, "cp: cannot read '", src.as_str(), "': ", e);
                return 1;
            },
        },
        Err(e) => {
            append_error(out, "cp: cannot stat '", src.as_str(), "': ", e);
            return 1;
        },
    };
    proof {
        lemma_open_truncate(ns@, dst@);
    }
    match ns.open(&dst, OpenFlags::TRUNCATE()) {
        Ok(mut file) => {
            assert(content@.len() == content.len());
            match ns.write(&mut file, content.as_slice()) {
                Ok(_) => {},
                Err(e) => {
                    append_error(out, "cp: cannot write '", dst.as_str(), "': ", e);
                    return 1;
                },
            }
        },
        Err(e) => {
            append_error(out, "cp: cannot create '", dst.as_str(), "': ", e);
            return 1;
        },
    }
    assert(out@ =~= old(out)@ + Seq::<char>::empty());
    0
}

pub fn run_mv(args: &[String], ns: &mut Namespace, cwd: &str, out: &mut String) -> (code: i32)
    requires
        old(ns).valid(),
    ensures
        final(ns).valid(),
        final(ns)@ == mv_run(old(ns)@, cwd@, arg_views(args@)).0,
        final(out)@ == old(out)@ + mv_run(old(ns)@, cwd@, arg_views(args@)).1,
        code == mv_run(old(ns)@, cwd@, arg_views(args@)).2,
{
    if args.len() < 2 {
        out.append("mv: missing destination file operand\r\n");
        return 1;
    }
    let src = resolve_path(cwd, args[0].as_str());
    let dst = resolve_path(cwd, args[1].as_str());
    match ns.rename(&src, &dst) {
        Ok(_) => {
            assert(out@ =~= old(out)@ + Seq::<char>::empty());
            0
        },
        Err(e) => {
            append_error(out, "mv: cannot move '", src.as_str(), "': ", e);
            1
        },
    }
}

} // verus!

verus! {

// ---------------------------------------------------------------------
// The builtins as the shell calls them
// ---------------------------------------------------------------------

/// `pwd`: the working directory.
pub fn pwd(ctx: &mut crate::shell::executor::BuiltinContext) -> (code: i32)
    ensures
        (*final(ctx).output)@ == (*old(ctx).output)@ + pwd_run((*old(ctx).ns)@, (*old(ctx).cwd)@).1,
        (*final(ctx).ns)@ == (*old(ctx).ns)@,
        code == 0,
        (*final(ctx).cwd)@ == (*old(ctx).cwd)@,
        final(ctx).args@ == old(ctx).args@,
{
    run_pwd(ctx.cwd.as_str(), ctx.output)
}

/// `ls [dir]`: the entries of a directory.
pub fn ls(ctx: &mut crate::shell::executor::BuiltinContext) -> (code: i32)
    requires
        (*old(ctx).ns).valid(),
    ensures
        (*final(ctx).ns).valid(),
        (*final(ctx).ns)@ == (*old(ctx).ns)@,
        (*final(ctx).output)@ == (*old(ctx).output)@ + ls_run((*old(ctx).ns)@, (*old(ctx).cwd)@, arg_views(old(ctx).args@)).1,
        code == ls_run((*old(ctx).ns)@, (*old(ctx).cwd)@, arg_views(old(ctx).args@)).2,
        (*final(ctx).cwd)@ == (*old(ctx).cwd)@,
        final(ctx).args@ == old(ctx).args@,
{
    run_ls(ctx.args, ctx.ns, ctx.cwd.as_str(), ctx.output)
}

} // verus!

verus! {

/// `cat file...`: the text of each file.
pub fn cat(ctx: &mut crate::shell::executor::BuiltinContext) -> (code: i32)
    requires
        (*old(ctx).ns).valid(),
    ensures
        (*final(ctx).ns).valid(),
        (*final(ctx).ns)@ == cat_run((*old(ctx).ns)@, (*old(ctx).cwd)@, arg_views(old(ctx).args@)).0,
        (*final(ctx).output)@ == (*old(ctx).output)@ + cat_run((*old(ctx).ns)@, (*old(ctx).cwd)@, arg_views(old(ctx).args@)).1,
        code == cat_run((*old(ctx).ns)@, (*old(ctx).cwd)@, arg_views(old(ctx).args@)).2,
        (*final(ctx).cwd)@ == (*old(ctx).cwd)@,
        final(ctx).args@ == old(ctx).args@,
{
    run_cat(ctx.args, ctx.ns, ctx.cwd.as_str(), ctx.output)
}

/// `mkdir dir...`: creates each directory.
pub fn mkdir(ctx: &mut crate::shell::executor::BuiltinContext) -> (code: i32)
    requires
        (*old(ctx).ns).valid(),
    ensures
        (*final(ctx).ns).valid(),
        (*final(ctx).ns)@ == mkdir_run((*old(ctx).ns)@, (*old(ctx).cwd)@, arg_views(old(ctx).args@)).0,
        (*final(ctx).output)@ == (*old(ctx).output)@ + mkdir_run((*old(ctx).ns)@, (*old(ctx).cwd)@, arg_views(old(ctx).args@)).1,
        code == mkdir_run((*old(ctx).ns)@, (*old(ctx).cwd)@, arg_views(old(ctx).args@)).2,
        (*final(ctx).cwd)@ == (*old(ctx).cwd)@,
        final(ctx).args@ == old(ctx).args@,
{
    run_mkdir(ctx.args, ctx.ns, ctx.cwd.as_str(), ctx.output)
}

/// `rm path...`: removes each file or empty directory.
pub fn rm(ctx: &mut crate::shell::executor::BuiltinContext) -> (code: i32)
    requires
        (*old(ctx).ns).valid(),
    ensures
        (*final(ctx).ns).valid(),
        (*final(ctx).ns)@ == rm_run((*old(ctx).ns)@, (*old(ctx).cwd)@, arg_views(old(ctx).args@)).0,
        (*final(ctx).output)@ == (*old(ctx).output)@ + rm_run((*old(ctx).ns)@, (*old(ctx).cwd)@, arg_views(old(ctx).args@)).1,
        code == rm_run((*old(ctx).ns)@, (*old(ctx).cwd)@, arg_views(old(ctx).args@)).2,
        (*final(ctx).cwd)@ == (*old(ctx).cwd)@,
        final(ctx).args@ == old(ctx).args@,
{
    run_rm(ctx.args, ctx.ns, ctx.cwd.as_str(), ctx.output)
}

/// `touch file...`: creates each missing file.
pub fn touch(ctx: &mut crate::shell::executor::BuiltinContext) -> (code: i32)
    requires
        (*old(ctx).ns).valid(),
    ensures
        (*final(ctx).ns).valid(),
        (*final(ctx).ns)@ == touch_run((*old(ctx).ns)@, (*old(ctx).cwd)@, arg_views(old(ctx).args@)).0,
        (*final(ctx).output)@ == (*old(ctx).output)@ + touch_run((*old(ctx).ns)@, (*old(ctx).cwd)@, arg_views(old(ctx).args@)).1,
        code == touch_run((*old(ctx).ns)@, (*old(ctx).cwd)@, arg_views(old(ctx).args@)).2,
        (*final(ctx).cwd)@ == (*old(ctx).cwd)@,
        final(ctx).args@ == old(ctx).args@,
{
    run_touch(ctx.args, ctx.ns, ctx.cwd.as_str(), ctx.output)
}

/// `cp src dst`: copies a file's bytes.
pub fn cp(ctx: &mut crate::shell::executor::BuiltinContext) -> (code: i32)
    requires
        (*old(ctx).ns).valid(),
    ensures
        (*final(ctx).ns).valid(),
        (*final(ctx).ns)@ == cp_run((*old(ctx).ns)@, (*old(ctx).cwd)@, arg_views(old(ctx).args@)).0,
        (*final(ctx).output)@ == (*old(ctx).output)@ + cp_run((*old(ctx).ns)@, (*old(ctx).cwd)@, arg_views(old(ctx).args@)).1,
        code == cp_run((*old(ctx).ns)@, (*old(ctx).cwd)@, arg_views(old(ctx).args@)).2,
        (*final(ctx).cwd)@ == (*old(ctx).cwd)@,
        final(ctx).args@ == old(ctx).args@,
{
    run_cp(ctx.args, ctx.ns, ctx.cwd.as_str(), ctx.output)
}

/// `mv src dst`: renames.
pub fn mv(ctx: &mut crate::shell::executor::BuiltinContext) -> (code: i32)
    requires
        (*old(ctx).ns).valid(),
    ensures
        (*final(ctx).ns).valid(),
        (*final(ctx).ns)@ == mv_run((*old(ctx).ns)@, (*old(ctx).cwd)@, arg_views(old(ctx).args@)).0,
        (*final(ctx).output)@ == (*old(ctx).output)@ + mv_run((*old(ctx).ns)@, (*old(ctx).cwd)@, arg_views(old(ctx).args@)).1,
        code == mv_run((*old(ctx).ns)@, (*old(ctx).cwd)@, arg_views(old(ctx).args@)).2,
        (*final(ctx).cwd)@ == (*old(ctx).cwd)@,
        final(ctx).args@ == old(ctx).args@,
{
    run_mv(ctx.args, ctx.ns, ctx.cwd.as_str(), ctx.output)
}

} // verus!
