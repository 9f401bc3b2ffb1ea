//! Properties of the library that span several operations.
use vstd::prelude::*;

use crate::builtins::fs::{cp_run, read_flags, read_rest, resolve_path_spec, truncate_flags};
use crate::fs::memfs::{
    metadata_of, mkdir_spec, normalize, open_spec, parent_of, read_spec, rename_spec, slash,
    stat_spec, unlink_spec, with_entry, without_entry, write_spec, FsView, HandleView, NodeView,
};
use crate::strs::{lemma_rfind_char, rfind_char, trim_end_char};
use crate::vfs::traits::{path_join, path_name, path_parent, FsError, Metadata, NodeType, OpenFlags};

verus! {

/// The root exists and is a directory.
pub open spec fn root_is_dir(fs: FsView) -> bool {
    fs.contains_key(slash()) && fs[slash()] is Dir
}

proof fn lemma_entries_keep_kinds(fs: FsView, dir: Seq<char>, name: Seq<char>)
    ensures
        forall|p: Seq<char>|
            #![trigger with_entry(fs, dir, name).contains_key(p)]
            with_entry(fs, dir, name).contains_key(p) == fs.contains_key(p),
        forall|p: Seq<char>|
            #![trigger without_entry(fs, dir, name).contains_key(p)]
            without_entry(fs, dir, name).contains_key(p) == fs.contains_key(p),
        forall|p: Seq<char>|
            fs.contains_key(p) ==> metadata_of(#[trigger] with_entry(fs, dir, name)[p]) == metadata_of(fs[p])
                && (with_entry(fs, dir, name)[p] is Dir <==> fs[p] is Dir),
        forall|p: Seq<char>|
            fs.contains_key(p) ==> metadata_of(#[trigger] without_entry(fs, dir, name)[p]) == metadata_of(fs[p])
                && (without_entry(fs, dir, name)[p] is Dir <==> fs[p] is Dir),
        forall|p: Seq<char>|
            #![trigger with_entry(fs, dir, name)[p]]
            fs.contains_key(p) && fs[p] is File ==> with_entry(fs, dir, name)[p] == fs[p],
{
}

/// The root directory is never removed, replaced or turned into a file:
/// every operation that changes a file system keeps it a directory.
pub proof fn law_root_stays_dir(
    fs: FsView,
    path: Seq<char>,
    other: Seq<char>,
    flags: OpenFlags,
    h: HandleView,
    data: Seq<u8>,
)
    requires
        root_is_dir(fs),
    ensures
        root_is_dir(mkdir_spec(fs, path).0),
        root_is_dir(unlink_spec(fs, path).0),
        root_is_dir(rename_spec(fs, path, other).0),
        root_is_dir(open_spec(fs, path, flags).0),
        root_is_dir(write_spec(fs, h, data).0),
{
    let p = normalize(path);
    let r = slash();
    // mkdir
    if !fs.contains_key(p) {
        if let Some(par) = parent_of(p) {
            let fs1 = fs.insert(p, NodeView::Dir(Set::empty()));
            lemma_entries_keep_kinds(fs1, par, path_name(p));
        }
    }
    // unlink
    if fs.contains_key(p) && p != r {
        if let Some(par) = parent_of(p) {
            lemma_entries_keep_kinds(fs, par, path_name(p));
        }
    }
    // rename
    let t = normalize(other);
    if fs.contains_key(p) && !fs.contains_key(t) {
        match (parent_of(p), parent_of(t)) {
            (Some(fp), Some(tp)) => {
                let moved = fs.remove(p).insert(t, fs[p]);
                lemma_entries_keep_kinds(moved, fp, path_name(p));
                lemma_entries_keep_kinds(without_entry(moved, fp, path_name(p)), tp, path_name(t));
            },
            _ => {},
        }
    }
    // open
    let exists = fs.contains_key(p);
    if !(exists && fs[p] is Dir) {
        let fs1 = if exists && flags.truncate {
            fs.insert(p, NodeView::File(Seq::empty()))
        } else {
            fs
        };
        if !exists && flags.create {
            if let Some(par) = parent_of(p) {
                let fs2 = fs1.insert(p, NodeView::File(Seq::empty()));
                lemma_entries_keep_kinds(fs2, par, path_name(p));
            }
        }
    }
}

/// What was written through a handle of a file opened with truncation is
/// what a later read gives back: the write succeeds, the handle stands
/// after the bytes, opening the file again changes nothing, and reading
/// at least as many bytes from the start gives exactly the bytes written.
pub proof fn law_read_after_write(fs: FsView, path: Seq<char>, data: Seq<u8>, len: nat)
    requires
        open_spec(fs, path, truncate_flags()).1 is Ok,
        len >= data.len(),
    ensures
        ({
            let opened = open_spec(fs, path, truncate_flags());
            let h = opened.1->Ok_0;
            let written = write_spec(opened.0, h, data);
            let reopened = open_spec(written.0, path, read_flags());
            &&& written.2 == Ok::<usize, FsError>(data.len() as usize)
            &&& written.1 == data.len() as u64
            &&& reopened.0 == written.0
            &&& written.0.contains_key(normalize(path))
            &&& written.0[normalize(path)] == NodeView::File(data)
            &&& reopened.1 == Ok::<HandleView, FsError>(
                HandleView { path: normalize(path), offset: 0, append: false },
            )
            &&& read_spec(written.0, reopened.1->Ok_0, len) == Ok::<Seq<u8>, FsError>(data)
        }),
{
    let p = normalize(path);
    let opened = open_spec(fs, path, truncate_flags());
    let h = opened.1->Ok_0;
    assert(h.path == p && h.offset == 0 && !h.append);
    let fs1 = if fs.contains_key(p) {
        fs.insert(p, NodeView::File(Seq::empty()))
    } else {
        fs
    };
    if !fs.contains_key(p) {
        let par = parent_of(p)->Some_0;
        lemma_entries_keep_kinds(fs1.insert(p, NodeView::File(Seq::empty())), par, path_name(p));
    }
    assert(opened.0.contains_key(p) && opened.0[p] == NodeView::File(Seq::<u8>::empty()));
    let written = write_spec(opened.0, h, data);
    assert(crate::fs::memfs::splice(Seq::<u8>::empty(), 0, data) =~= data);
    let fs2 = written.0;
    assert(fs2[p] == NodeView::File(data));
    let reopened = open_spec(fs2, path, read_flags());
    assert(reopened.0 == fs2);
    let g = reopened.1->Ok_0;
    assert(g.path == p && g.offset == 0);
    if data.len() == 0 {
        assert(seq![] =~= data);
    } else if len == data.len() {
        assert(data.subrange(0, len as int) =~= data);
    } else {
        assert(data.subrange(0, data.len() as int) =~= data);
    }
}

/// A directory that `mkdir` created is there: `stat` reports a
/// directory, and a second `mkdir` of it fails with `AlreadyExists`.
pub proof fn law_mkdir_then_stat(fs: FsView, path: Seq<char>)
    requires
        mkdir_spec(fs, path).1 is Ok,
    ensures
        stat_spec(mkdir_spec(fs, path).0, path) == Ok::<Metadata, FsError>(
            Metadata { node_type: NodeType::Dir, size: 0 },
        ),
        mkdir_spec(mkdir_spec(fs, path).0, path).1 == Err::<(), FsError>(FsError::AlreadyExists),
{
    let p = normalize(path);
    let par = parent_of(p)->Some_0;
    let fs1 = fs.insert(p, NodeView::Dir(Set::empty()));
    lemma_entries_keep_kinds(fs1, par, path_name(p));
}

/// A path that `unlink` removed is gone.
pub proof fn law_unlink_removes(fs: FsView, path: Seq<char>)
    requires
        unlink_spec(fs, path).1 is Ok,
    ensures
        stat_spec(unlink_spec(fs, path).0, path) == Err::<Metadata, FsError>(FsError::NotFound),
{
}

/// A rename moves a node: the new path reports what the old one did, and
/// the old path is gone.
pub proof fn law_rename_moves(fs: FsView, from: Seq<char>, to: Seq<char>)
    requires
        rename_spec(fs, from, to).1 is Ok,
    ensures
        stat_spec(rename_spec(fs, from, to).0, to) == stat_spec(fs, from),
        stat_spec(rename_spec(fs, from, to).0, from) == Err::<Metadata, FsError>(FsError::NotFound),
{
    let f = normalize(from);
    let t = normalize(to);
    let fp = parent_of(f)->Some_0;
    let tp = parent_of(t)->Some_0;
    let moved = fs.remove(f).insert(t, fs[f]);
    lemma_entries_keep_kinds(moved, fp, path_name(f));
    let mid = without_entry(moved, fp, path_name(f));
    lemma_entries_keep_kinds(mid, tp, path_name(t));
    assert(f != t);
}

/// A path made absolute stays as it is when made absolute again, and
/// always starts with `/`.
pub proof fn law_normalize_idempotent(p: Seq<char>)
    ensures
        normalize(normalize(p)) == normalize(p),
        normalize(p).len() > 0 && normalize(p)[0] == '/',
{
    if !(p.len() == 0 || p == seq!['.']) && p[0] != '/' {
        assert((slash() + p)[0] == '/');
    }
}

/// A path with a parent is its parent joined with its name (trailing
/// slashes dropped), unless the parent itself ends in `/` other than as
/// the root; and the name holds no `/`.
pub proof fn law_parent_join_name(s: Seq<char>)
    requires
        path_parent(s) is Some,
        ({
            let t = trim_end_char(s, '/');
            let i = rfind_char(t, '/')->Some_0;
            i == 0 || t[i - 1] != '/'
        }),
    ensures
        path_join(path_parent(s)->Some_0, path_name(s)) == trim_end_char(s, '/'),
        forall|k: int| 0 <= k < path_name(s).len() ==> path_name(s)[k] != '/',
{
    let t = trim_end_char(s, '/');
    lemma_rfind_char(t, '/');
    let i = rfind_char(t, '/')->Some_0;
    let name = t.skip(i + 1);
    assert forall|k: int| 0 <= k < name.len() implies name[k] != '/' by {
        assert(name[k] == t[i + 1 + k]);
    }
    if i == 0 {
        assert(t =~= seq!['/'] + name);
        if name.len() > 0 {
            assert(name[0] != '/');
        }
    } else {
        let par = t.take(i);
        assert(par.last() == t[i - 1]);
        assert(t =~= par + seq!['/'] + name);
        if name.len() > 0 {
            assert(name[0] == t[i + 1]);
        }
    }
}

/// Reading to the end what a path names, as `cat` does: the bytes of the
/// file, or the error of opening it.
pub open spec fn file_content(ns: crate::vfs::namespace::NsView, path: Seq<char>) -> core::result::Result<Seq<u8>, FsError> {
    match crate::vfs::namespace::ns_open(ns, path, read_flags()).1 {
        Ok(f) => read_rest(ns, f),
        Err(e) => Err(e),
    }
}

} // verus!

verus! {

/// `cp` copies: when it succeeds, reading the destination to its end
/// gives what reading the source gave before the copy.
pub proof fn law_cp_copies(ns: crate::vfs::namespace::NsView, cwd: Seq<char>, args: Seq<Seq<char>>)
    requires
        args.len() >= 2,
        cp_run(ns, cwd, args).2 == 0,
    ensures
        file_content(cp_run(ns, cwd, args).0, resolve_path_spec(cwd, args[1])) == file_content(
            ns,
            resolve_path_spec(cwd, args[0]),
        ),
{
    let src = resolve_path_spec(cwd, args[0]);
    let dst = resolve_path_spec(cwd, args[1]);
    let f = crate::vfs::namespace::ns_open(ns, src, read_flags()).1->Ok_0;
    let c = read_rest(ns, f)->Ok_0;
    let (m, rel) = crate::vfs::namespace::resolve_spec(ns, dst)->Some_0;
    assert(ns.dom().contains(m));
    let opened = open_spec(ns[m], rel, truncate_flags());
    law_read_after_write(ns[m], rel, c, c.len());
    let h = opened.1->Ok_0;
    let ns2 = ns.insert(m, opened.0);
    let fs3 = write_spec(opened.0, h, c).0;
    let ns3 = ns2.insert(m, fs3);
    assert(cp_run(ns, cwd, args).0 == ns3);
    assert(ns3.dom() =~= ns.dom());
    assert(crate::vfs::namespace::resolve_spec(ns3, dst) == Some((m, rel)));
    let g = crate::vfs::namespace::NsFileView {
        mount: m,
        handle: HandleView { path: normalize(rel), offset: 0, append: false },
    };
    assert(crate::vfs::namespace::ns_open(ns3, dst, read_flags()).1 == Ok::<
        crate::vfs::namespace::NsFileView,
        FsError,
    >(g));
    if c.len() > 0 {
        assert(c.skip(0) =~= c);
    } else {
        assert(c =~= seq![]);
    }
}

} // verus!

verus! {

proof fn lemma_listing_from(fs: FsView, dir: Seq<char>, names: Seq<Seq<char>>)
    ensures
        forall|k: int|
            0 <= k < crate::fs::memfs::listing(fs, dir, names).len() ==> exists|j: int|
                0 <= j < names.len() && names[j] == (#[trigger] crate::fs::memfs::listing(fs, dir, names)[k]).0,
        crate::fs::memfs::listing(fs, dir, names).len() <= names.len(),
    decreases names.len(),
{
    if names.len() > 0 {
        let rest = names.drop_last();
        lemma_listing_from(fs, dir, rest);
        let l = crate::fs::memfs::listing(fs, dir, names);
        let lr = crate::fs::memfs::listing(fs, dir, rest);
        assert forall|k: int| 0 <= k < l.len() implies exists|j: int|
            0 <= j < names.len() && names[j] == (#[trigger] l[k]).0 by {
            if k < lr.len() {
                let j = choose|j: int| 0 <= j < rest.len() && rest[j] == lr[k].0;
                assert(names[j] == rest[j]);
            } else {
                assert(names[names.len() - 1] == l[k].0);
            }
        }
    }
}

proof fn lemma_listing_sorted(fs: FsView, dir: Seq<char>, names: Seq<Seq<char>>)
    requires
        crate::strmap::strictly_sorted(names),
    ensures
        crate::strmap::strictly_sorted(
            crate::fs::memfs::listing(fs, dir, names).map_values(|e: (Seq<char>, NodeType)| e.0),
        ),
    decreases names.len(),
{
    if names.len() > 0 {
        let rest = names.drop_last();
        lemma_listing_sorted(fs, dir, rest);
        lemma_listing_from(fs, dir, rest);
        let l = crate::fs::memfs::listing(fs, dir, names);
        let lr = crate::fs::memfs::listing(fs, dir, rest);
        let ks = l.map_values(|e: (Seq<char>, NodeType)| e.0);
        let kr = lr.map_values(|e: (Seq<char>, NodeType)| e.0);
        assert forall|a: int, b: int| 0 <= a < b < ks.len() implies crate::strs::lex_lt(ks[a], ks[b]) by {
            if b < kr.len() {
                assert(ks[a] == kr[a] && ks[b] == kr[b]);
            } else {
                let j = choose|j: int| 0 <= j < rest.len() && rest[j] == lr[a].0;
                assert(ks[a] == names[j]);
                assert(ks[b] == names[names.len() - 1]);
            }
        }
    }
}

/// `readdir` lists a directory's children in strictly ascending order of
/// name, so each at most once.
pub proof fn law_readdir_sorted(fs: &crate::fs::memfs::MemFs, path: Seq<char>)
    requires
        fs.valid(),
    ensures
        crate::fs::memfs::readdir_spec(fs@, path) is Ok ==> crate::strmap::strictly_sorted(
            crate::fs::memfs::readdir_spec(fs@, path)->Ok_0.map_values(|e: (Seq<char>, NodeType)| e.0),
        ),
{
    fs.lemma_dirs_sorted();
    let p = normalize(path);
    if fs@.contains_key(p) && fs@[p] is Dir {
        lemma_listing_sorted(fs@, p, crate::strmap::sorted_of(fs@[p]->Dir_0));
    }
}

/// Input delivered in two parts is buffered as if delivered at once.
pub proof fn law_input_in_parts(buf: Seq<u8>, first: Seq<u8>, second: Seq<u8>)
    ensures
        (buf + first) + second == buf + (first + second),
{
    assert((buf + first) + second =~= buf + (first + second));
}

/// After `register(name, b)`, the registry runs `b` for a command named
/// `name`, and every other name keeps its builtin.
pub proof fn law_register_then_dispatch(
    reg: Map<Seq<char>, crate::shell::executor::Builtin>,
    name: Seq<char>,
    b: crate::shell::executor::Builtin,
    other: Seq<char>,
)
    ensures
        reg.insert(name, b).contains_key(name),
        reg.insert(name, b)[name] == b,
        other != name ==> (reg.insert(name, b).contains_key(other) == reg.contains_key(other)),
        other != name && reg.contains_key(other) ==> reg.insert(name, b)[other] == reg[other],
{
}

} // verus!

verus! {

/// Trimming twice trims nothing more.
pub proof fn law_trim_idempotent(s: Seq<char>)
    ensures
        crate::strs::trim(crate::strs::trim(s)) == crate::strs::trim(s),
{
    let e = crate::strs::trim_end_ws(s);
    crate::strs::lemma_trim_end_ws(s);
    crate::strs::lemma_trim_start_ws(e);
    let t = crate::strs::trim_start_ws(e);
    if t.len() > 0 {
        assert(t.last() == e.last());
        assert(e.last() == s[e.len() - 1]);
        assert(crate::strs::trim_end_ws(t) == t);
        assert(crate::strs::trim_start_ws(t) == t);
    } else {
        assert(crate::strs::trim_end_ws(t) == t);
    }
}

/// Whitespace around a command line does not change how it parses.
pub proof fn law_parse_ignores_surrounding_space(line: Seq<char>)
    ensures
        crate::shell::parser::parse_spec(crate::strs::trim(line)) == crate::shell::parser::parse_spec(line),
{
    law_trim_idempotent(line);
}

} // verus!

verus! {

/// A write is read back: after writing `data` through a handle, reading
/// `data.len()` bytes from where the write began (the position, or the old
/// end for an appending handle) gives `data`.
pub proof fn law_read_back_written(fs: FsView, h: HandleView, data: Seq<u8>)
    requires
        crate::fs::memfs::sizes_fit(fs),
        fs.contains_key(h.path),
        fs[h.path] is File,
    ensures
        ({
            let d = fs[h.path]->File_0;
            let start = if h.append {
                d.len() as u64
            } else {
                h.offset
            };
            let written = write_spec(fs, h, data);
            &&& written.2 == Ok::<usize, FsError>(data.len() as usize)
            &&& read_spec(written.0, HandleView { offset: start, ..h }, data.len()) == Ok::<Seq<u8>, FsError>(data)
        }),
{
    let d = fs[h.path]->File_0;
    let start: u64 = if h.append {
        d.len() as u64
    } else {
        h.offset
    };
    let written = write_spec(fs, h, data);
    let nd = written.0[h.path]->File_0;
    if h.append {
        assert(nd == d + data);
    } else {
        assert(nd == crate::fs::memfs::splice(d, h.offset as nat, data));
    }
    assert(nd.len() >= start + data.len());
    if data.len() == 0 {
        if start < nd.len() {
            assert(nd.subrange(start as int, start as int) =~= data);
        } else {
            assert(seq![] =~= data);
        }
    } else {
        assert(nd.subrange(start as int, start + data.len()) =~= data);
    }
}

} // verus!

verus! {

proof fn lemma_listing_contains(fs: FsView, dir: Seq<char>, names: Seq<Seq<char>>, j: int)
    requires
        0 <= j < names.len(),
        fs.contains_key(crate::fs::memfs::child_path(dir, names[j])),
    ensures
        crate::fs::memfs::listing(fs, dir, names).contains(
            (names[j], crate::fs::memfs::node_type_of(fs[crate::fs::memfs::child_path(dir, names[j])])),
        ),
    decreases names.len(),
{
    let l = crate::fs::memfs::listing(fs, dir, names);
    if j == names.len() - 1 {
        assert(l.last() == (names[j], crate::fs::memfs::node_type_of(fs[crate::fs::memfs::child_path(dir, names[j])])));
    } else {
        let rest = names.drop_last();
        assert(rest[j] == names[j]);
        lemma_listing_contains(fs, dir, rest, j);
        let lr = crate::fs::memfs::listing(fs, dir, rest);
        let k = choose|k: int| 0 <= k < lr.len() && lr[k] == (names[j], crate::fs::memfs::node_type_of(fs[crate::fs::memfs::child_path(dir, names[j])]));
        assert(l[k] == lr[k]);
    }
}

/// A path is the child of its parent under its name, when it ends in no
/// `/` and its last `/` follows no `/`.
proof fn lemma_child_of_parent(p: Seq<char>)
    requires
        p.len() > 0,
        p[0] == '/',
        p.last() != '/',
        ({
            let i = rfind_char(p, '/')->Some_0;
            i == 0 || p[i - 1] != '/'
        }),
    ensures
        parent_of(p) is Some,
        crate::fs::memfs::child_path(parent_of(p)->Some_0, path_name(p)) == p,
        normalize(parent_of(p)->Some_0) == parent_of(p)->Some_0,
        parent_of(p)->Some_0 != p,
{
    lemma_rfind_char(p, '/');
    assert(trim_end_char(p, '/') == p);
    let i = rfind_char(p, '/')->Some_0;
    let name = p.skip(i + 1);
    if p == slash() {
        assert(p.last() == '/');
    }
    if i == 0 {
        assert(trim_end_char(slash(), '/') == trim_end_char(slash().drop_last(), '/'));
        assert(slash().drop_last() =~= Seq::<char>::empty());
        assert(seq!['/'] + name =~= p);
        assert(Seq::<char>::empty() + slash() + name =~= p);
    } else {
        let par = p.take(i);
        assert(par.last() == p[i - 1]);
        assert(trim_end_char(par, '/') == par);
        assert(par + slash() + name =~= p);
        assert(par[0] == '/');
        assert(par.len() < p.len());
    }
}

/// What `mkdir` creates, and what opening with `create` creates, is listed
/// by `readdir` of its parent, as a directory or a file: for paths that
/// end in no `/` and whose last `/` follows no `/`.
pub proof fn law_created_is_listed(fs: &crate::fs::memfs::MemFs, path: Seq<char>)
    requires
        fs.valid(),
        normalize(path).last() != '/',
        ({
            let p = normalize(path);
            let i = rfind_char(p, '/')->Some_0;
            i == 0 || p[i - 1] != '/'
        }),
    ensures
        mkdir_spec(fs@, path).1 is Ok ==> ({
            let after = mkdir_spec(fs@, path).0;
            let par = parent_of(normalize(path))->Some_0;
            &&& crate::fs::memfs::readdir_spec(after, par) is Ok
            &&& crate::fs::memfs::readdir_spec(after, par)->Ok_0.contains((path_name(normalize(path)), NodeType::Dir))
        }),
        (!fs@.contains_key(normalize(path)) && open_spec(fs@, path, crate::builtins::fs::create_flags()).1 is Ok) ==> ({
            let after = open_spec(fs@, path, crate::builtins::fs::create_flags()).0;
            let par = parent_of(normalize(path))->Some_0;
            &&& crate::fs::memfs::readdir_spec(after, par) is Ok
            &&& crate::fs::memfs::readdir_spec(after, par)->Ok_0.contains((path_name(normalize(path)), NodeType::File))
        }),
{
    let p = normalize(path);
    law_normalize_idempotent(path);
    lemma_child_of_parent(p);
    let par = parent_of(p)->Some_0;
    let name = path_name(p);
    fs.lemma_dirs_sorted();
    if !fs@.contains_key(p) && crate::fs::memfs::dir_status(fs@, par) is Ok {
        let names = fs@[par]->Dir_0;
        assert(fs@.contains_key(par) && fs@[par] is Dir);
        let names2 = names.insert(name);
        crate::strmap::lemma_sorted_of_finite(names2);
        let ks = crate::strmap::sorted_of(names2);
        assert(ks.to_set().contains(name));
        let j = choose|j: int| 0 <= j < ks.len() && ks[j] == name;
        // mkdir
        let fs1 = fs@.insert(p, NodeView::Dir(Set::empty()));
        let after = with_entry(fs1, par, name);
        assert(after[par] == NodeView::Dir(names2));
        assert(after.contains_key(p) && after[p] is Dir);
        lemma_listing_contains(after, par, ks, j);
        // create
        let fs2 = fs@.insert(p, NodeView::File(Seq::empty()));
        let after2 = with_entry(fs2, par, name);
        assert(after2[par] == NodeView::Dir(names2));
        assert(after2.contains_key(p) && after2[p] is File);
        lemma_listing_contains(after2, par, ks, j);
    }
}

/// The parent of an absolute path is shorter than the path.
proof fn lemma_parent_shorter(p: Seq<char>)
    requires
        p.len() > 0,
        p[0] == '/',
        parent_of(p) is Some,
    ensures
        parent_of(p)->Some_0.len() < p.len(),
{
    if p.len() == 1 {
        assert(p =~= slash());
    }
    let t = trim_end_char(p, '/');
    crate::strs::lemma_trim_end_char(p, '/');
    lemma_rfind_char(t, '/');
}

/// `unlink` undoes `mkdir`, and undoes the creation of a file by `open`:
/// the node map is back as it was, unless the new name was already listed
/// in the parent directory.
pub proof fn law_unlink_undoes_creation(fs: FsView, path: Seq<char>)
    requires
        ({
            let p = normalize(path);
            let par = parent_of(p)->Some_0;
            parent_of(p) is Some && fs.contains_key(par) && fs[par] is Dir ==> !fs[par]->Dir_0.contains(path_name(p))
        }),
    ensures
        mkdir_spec(fs, path).1 is Ok ==> unlink_spec(mkdir_spec(fs, path).0, path) == (fs, Ok::<(), FsError>(())),
        (!fs.contains_key(normalize(path)) && open_spec(fs, path, crate::builtins::fs::create_flags()).1 is Ok)
            ==> unlink_spec(open_spec(fs, path, crate::builtins::fs::create_flags()).0, path) == (fs, Ok::<(), FsError>(())),
{
    let p = normalize(path);
    law_normalize_idempotent(path);
    if !fs.contains_key(p) && parent_of(p) is Some {
        let par = parent_of(p)->Some_0;
        lemma_parent_shorter(p);
        assert(par != p);
        let name = path_name(p);
        if fs.contains_key(par) && fs[par] is Dir {
            let names = fs[par]->Dir_0;
            assert(names.insert(name).remove(name) =~= names);
            let a = with_entry(fs.insert(p, NodeView::Dir(Set::empty())), par, name);
            assert(without_entry(a, par, name).remove(p) =~= fs);
            let b = with_entry(fs.insert(p, NodeView::File(Seq::empty())), par, name);
            assert(without_entry(b, par, name).remove(p) =~= fs);
        }
    }
}

/// Renaming back undoes a rename: the node map is as it was, when the
/// old name was listed in its directory and the new one was not listed in
/// its own.
pub proof fn law_rename_back_restores(fs: FsView, from: Seq<char>, to: Seq<char>)
    requires
        rename_spec(fs, from, to).1 is Ok,
        ({
            let fp = parent_of(normalize(from))->Some_0;
            fs.contains_key(fp) && fs[fp] is Dir && fs[fp]->Dir_0.contains(path_name(normalize(from)))
        }),
        ({
            let tp = parent_of(normalize(to))->Some_0;
            fs.contains_key(tp) && fs[tp] is Dir && !fs[tp]->Dir_0.contains(path_name(normalize(to)))
        }),
    ensures
        rename_spec(rename_spec(fs, from, to).0, to, from) == (fs, Ok::<(), FsError>(())),
{
    let f = normalize(from);
    let t = normalize(to);
    law_normalize_idempotent(from);
    law_normalize_idempotent(to);
    let fp = parent_of(f)->Some_0;
    let tp = parent_of(t)->Some_0;
    lemma_parent_shorter(f);
    lemma_parent_shorter(t);
    let nf = path_name(f);
    let nt = path_name(t);
    assert(f != t);
    assert(fp != t);
    let moved = fs.remove(f).insert(t, fs[f]);
    let mid = without_entry(moved, fp, nf);
    let after = with_entry(mid, tp, nt);
    assert(after.contains_key(t));
    assert(!after.contains_key(f));
    assert(after[t] == fs[f]);
    let moved2 = after.remove(t).insert(f, after[t]);
    let mid2 = without_entry(moved2, tp, nt);
    let back = with_entry(mid2, fp, nf);
    let nfp = fs[fp]->Dir_0;
    let ntp = fs[tp]->Dir_0;
    if tp == f {
        assert(mid2 =~= fs.insert(fp, NodeView::Dir(nfp.remove(nf)))) by {
            assert(ntp.remove(nt) =~= ntp);
        }
        assert(nfp.remove(nf).insert(nf) =~= nfp);
        assert(back =~= fs);
    } else if tp == fp {
        assert(nfp.remove(nf).insert(nt).remove(nt).insert(nf) =~= nfp);
        assert(back =~= fs);
    } else {
        assert(ntp.insert(nt).remove(nt) =~= ntp);
        assert(nfp.remove(nf).insert(nf) =~= nfp);
        assert(back =~= fs);
    }
}

} // verus!

verus! {

// ---------------------------------------------------------------------
// The directory tree
// ---------------------------------------------------------------------

/// A path in its plain form: the root, or `/` followed by names separated
/// by single slashes, with no slash at the end.
pub open spec fn canonical(p: Seq<char>) -> bool {
    p == slash() || (p.len() >= 2 && p[0] == '/' && p.last() != '/' && forall|i: int|
        0 <= i < p.len() - 1 ==> !(#[trigger] p[i] == '/' && p[i + 1] == '/'))
}

/// A name a directory can list: not empty, and no `/` in it.
pub open spec fn entry_name(n: Seq<char>) -> bool {
    n.len() > 0 && forall|i: int| 0 <= i < n.len() ==> #[trigger] n[i] != '/'
}

/// The nodes form a tree: the root is a directory, every path is plain,
/// every node but the root is listed by its parent directory under its
/// name, and every name a directory lists is a plain name of a node.
pub open spec fn is_tree(fs: FsView) -> bool {
    &&& fs.contains_key(slash()) && fs[slash()] is Dir
    &&& forall|p: Seq<char>| #[trigger] fs.contains_key(p) ==> canonical(p)
    &&& forall|p: Seq<char>|
        #[trigger] fs.contains_key(p) && p != slash() ==> {
            let par = parent_of(p)->Some_0;
            &&& parent_of(p) is Some
            &&& fs.contains_key(par)
            &&& fs[par] is Dir
            &&& fs[par]->Dir_0.contains(path_name(p))
        }
    &&& forall|d: Seq<char>, n: Seq<char>|
        #![trigger fs[d]->Dir_0.contains(n)]
        fs.contains_key(d) && fs[d] is Dir && fs[d]->Dir_0.contains(n) ==> entry_name(n)
            && fs.contains_key(crate::fs::memfs::child_path(d, n))
}

/// A plain path other than the root is the child of its plain parent
/// under a plain name.
proof fn lemma_canonical_parent(p: Seq<char>)
    requires
        canonical(p),
        p != slash(),
    ensures
        parent_of(p) is Some,
        canonical(parent_of(p)->Some_0),
        entry_name(path_name(p)),
        crate::fs::memfs::child_path(parent_of(p)->Some_0, path_name(p)) == p,
        parent_of(p)->Some_0.len() < p.len(),
{
    lemma_rfind_char(p, '/');
    assert(trim_end_char(p, '/') == p);
    let i = rfind_char(p, '/')->Some_0;
    if i > 0 {
        assert(!(p[i - 1] == '/' && p[i] == '/'));
    }
    lemma_child_of_parent(p);
    let name = p.skip(i + 1);
    assert(i < p.len() - 1);
    assert forall|k: int| 0 <= k < name.len() implies name[k] != '/' by {
        assert(name[k] == p[i + 1 + k]);
    }
    if i > 0 {
        if i == 1 {
            assert(p[0] == '/' && p[1] == '/');
        }
        let par = p.take(i);
        assert forall|k: int| 0 <= k < par.len() - 1 implies !(#[trigger] par[k] == '/' && par[k + 1] == '/') by {
            assert(par[k] == p[k] && par[k + 1] == p[k + 1]);
        }
        assert(par.last() == p[i - 1]);
    }
}

/// The child of a plain directory path under a plain name is a plain path
/// whose parent and name are those two.
proof fn lemma_canonical_child(d: Seq<char>, n: Seq<char>)
    requires
        canonical(d),
        entry_name(n),
    ensures
        canonical(crate::fs::memfs::child_path(d, n)),
        crate::fs::memfs::child_path(d, n) != slash(),
        parent_of(crate::fs::memfs::child_path(d, n)) == Some(d),
        path_name(crate::fs::memfs::child_path(d, n)) == n,
{
    let td = trim_end_char(d, '/');
    if d == slash() {
        assert(trim_end_char(slash(), '/') == trim_end_char(slash().drop_last(), '/'));
        assert(slash().drop_last() =~= Seq::<char>::empty());
        assert(td =~= Seq::<char>::empty());
    } else {
        assert(td == d);
    }
    let c = td + slash() + n;
    let k = td.len() as int;
    assert(c[k] == '/');
    assert forall|j: int| k < j < c.len() implies c[j] != '/' by {
        assert(c[j] == n[j - k - 1]);
    }
    assert(c.last() == n.last());
    assert(c.len() >= 2);
    assert(c[0] == '/') by {
        if k > 0 {
            assert(c[0] == d[0]);
        }
    }
    assert forall|i: int| 0 <= i < c.len() - 1 implies !(#[trigger] c[i] == '/' && c[i + 1] == '/') by {
        if i + 1 < k {
            assert(c[i] == d[i] && c[i + 1] == d[i + 1]);
        } else if i + 1 == k {
            assert(c[i] == d.last());
        } else if i == k {
            assert(c[i + 1] == n[0]);
        } else {
            assert(c[i] == n[i - k - 1]);
        }
    }
    assert(c != slash()) by {
        assert(c.len() >= 2);
    }
    lemma_rfind_char(c, '/');
    assert(trim_end_char(c, '/') == c);
    let i = rfind_char(c, '/')->Some_0;
    assert(i == k);
    assert(c.skip(k + 1) =~= n);
    if k > 0 {
        assert(c.take(k) =~= d);
    }
}

/// Adding a file or an empty directory at a new plain path whose parent is
/// a directory, and listing it there, keeps a tree a tree.
#[verifier::spinoff_prover]
#[verifier::rlimit(40)]
proof fn lemma_tree_insert(fs: FsView, p: Seq<char>, node: NodeView)
    requires
        is_tree(fs),
        canonical(p),
        !fs.contains_key(p),
        parent_of(p) is Some,
        fs.contains_key(parent_of(p)->Some_0),
        fs[parent_of(p)->Some_0] is Dir,
        node is File || node == NodeView::Dir(Set::empty()),
    ensures
        is_tree(with_entry(fs.insert(p, node), parent_of(p)->Some_0, path_name(p))),
{
    let par = parent_of(p)->Some_0;
    let name = path_name(p);
    assert(p != slash());
    lemma_canonical_parent(p);
    let names = fs[par]->Dir_0;
    let g = with_entry(fs.insert(p, node), par, name);
    assert(par != p);
    assert(g == fs.insert(p, node).insert(par, NodeView::Dir(names.insert(name))));
    assert forall|q: Seq<char>| #[trigger] g.contains_key(q) implies canonical(q) by {}
    assert forall|q: Seq<char>| #[trigger] g.contains_key(q) && q != slash() implies ({
        let pq = parent_of(q)->Some_0;
        &&& parent_of(q) is Some
        &&& g.contains_key(pq)
        &&& g[pq] is Dir
        &&& g[pq]->Dir_0.contains(path_name(q))
    }) by {
        if q != p {
            let pq = parent_of(q)->Some_0;
            assert(fs.contains_key(q));
            assert(fs.contains_key(pq));
            assert(pq != p);
        }
    }
    assert forall|dd: Seq<char>, nn: Seq<char>|
        #![trigger g[dd]->Dir_0.contains(nn)]
        g.contains_key(dd) && g[dd] is Dir && g[dd]->Dir_0.contains(nn) implies entry_name(nn)
            && g.contains_key(crate::fs::memfs::child_path(dd, nn)) by {
        if dd == p {
            assert(node == NodeView::Dir(Set::empty()));
            assert(!Set::<Seq<char>>::empty().contains(nn));
        } else if dd == par {
            if nn != name {
                assert(fs[par]->Dir_0.contains(nn));
            }
        } else {
            assert(fs[dd]->Dir_0.contains(nn));
        }
    }
}

/// Removing a file or an empty directory other than the root, and its
/// name from its parent, keeps a tree a tree.
#[verifier::spinoff_prover]
#[verifier::rlimit(40)]
proof fn lemma_tree_remove(fs: FsView, p: Seq<char>)
    requires
        is_tree(fs),
        fs.contains_key(p),
        p != slash(),
        fs[p] is File || fs[p] == NodeView::Dir(Set::empty()),
    ensures
        is_tree(without_entry(fs, parent_of(p)->Some_0, path_name(p)).remove(p)),
{
    let par = parent_of(p)->Some_0;
    let name = path_name(p);
    lemma_canonical_parent(p);
    let names = fs[par]->Dir_0;
    let g = without_entry(fs, par, name).remove(p);
    assert(par != p);
    assert(g == fs.insert(par, NodeView::Dir(names.remove(name))).remove(p));
    assert forall|q: Seq<char>| #[trigger] g.contains_key(q) implies canonical(q) by {
        assert(fs.contains_key(q));
    }
    assert forall|q: Seq<char>| #[trigger] g.contains_key(q) && q != slash() implies ({
        let pq = parent_of(q)->Some_0;
        &&& parent_of(q) is Some
        &&& g.contains_key(pq)
        &&& g[pq] is Dir
        &&& g[pq]->Dir_0.contains(path_name(q))
    }) by {
        let pq = parent_of(q)->Some_0;
        assert(fs.contains_key(q));
        assert(fs.contains_key(pq) && fs[pq] is Dir && fs[pq]->Dir_0.contains(path_name(q)));
        if pq == p {
            assert(fs[p]->Dir_0.contains(path_name(q)));
            assert(!Set::<Seq<char>>::empty().contains(path_name(q)));
        }
        if pq == par && path_name(q) == name {
            lemma_canonical_parent(q);
        }
    }
    assert forall|dd: Seq<char>, nn: Seq<char>|
        #![trigger g[dd]->Dir_0.contains(nn)]
        g.contains_key(dd) && g[dd] is Dir && g[dd]->Dir_0.contains(nn) implies entry_name(nn)
            && g.contains_key(crate::fs::memfs::child_path(dd, nn)) by {
        assert(fs.contains_key(dd));
        assert(fs[dd]->Dir_0.contains(nn));
        let c = crate::fs::memfs::child_path(dd, nn);
        assert(fs.contains_key(c));
        if c == p {
            lemma_canonical_child(dd, nn);
        }
    }
}

/// A new file system, holding only the root directory, is a tree.
pub proof fn law_new_is_tree()
    ensures
        is_tree(Map::<Seq<char>, NodeView>::empty().insert(slash(), NodeView::Dir(Set::empty()))),
{
    let fs = Map::<Seq<char>, NodeView>::empty().insert(slash(), NodeView::Dir(Set::empty()));
    assert forall|d: Seq<char>, n: Seq<char>|
        #![trigger fs[d]->Dir_0.contains(n)]
        fs.contains_key(d) && fs[d] is Dir && fs[d]->Dir_0.contains(n) implies entry_name(n)
            && fs.contains_key(crate::fs::memfs::child_path(d, n)) by {
        assert(!Set::<Seq<char>>::empty().contains(n));
    }
}

/// `mkdir` keeps the nodes a tree, unless it creates a path that is not
/// plain (such as `/a/` or `/a//b`).
pub proof fn law_mkdir_keeps_tree(fs: FsView, path: Seq<char>)
    requires
        is_tree(fs),
        canonical(normalize(path)) || mkdir_spec(fs, path).1 is Err,
    ensures
        is_tree(mkdir_spec(fs, path).0),
{
    if mkdir_spec(fs, path).1 is Ok {
        lemma_tree_insert(fs, normalize(path), NodeView::Dir(Set::empty()));
    }
}

/// `open` keeps the nodes a tree, unless it creates a file at a path that
/// is not plain.
pub proof fn law_open_keeps_tree(fs: FsView, path: Seq<char>, flags: OpenFlags)
    requires
        is_tree(fs),
        canonical(normalize(path)) || fs.contains_key(normalize(path)) || open_spec(fs, path, flags).1 is Err,
    ensures
        is_tree(open_spec(fs, path, flags).0),
{
    let p = normalize(path);
    if fs.contains_key(p) {
        if fs[p] is File && flags.truncate {
            let g = fs.insert(p, NodeView::File(Seq::empty()));
            assert forall|d: Seq<char>, n: Seq<char>|
                #![trigger g[d]->Dir_0.contains(n)]
                g.contains_key(d) && g[d] is Dir && g[d]->Dir_0.contains(n) implies entry_name(n)
                    && g.contains_key(crate::fs::memfs::child_path(d, n)) by {
                assert(fs[d]->Dir_0.contains(n));
            }
            assert forall|q: Seq<char>| #[trigger] g.contains_key(q) && q != slash() implies ({
                let pq = parent_of(q)->Some_0;
                &&& parent_of(q) is Some
                &&& g.contains_key(pq)
                &&& g[pq] is Dir
                &&& g[pq]->Dir_0.contains(path_name(q))
            }) by {
                assert(fs.contains_key(q));
            }
        }
    } else if open_spec(fs, path, flags).1 is Ok {
        lemma_tree_insert(fs, p, NodeView::File(Seq::empty()));
    }
}

/// `unlink` keeps the nodes a tree.
pub proof fn law_unlink_keeps_tree(fs: FsView, path: Seq<char>)
    requires
        is_tree(fs),
    ensures
        is_tree(unlink_spec(fs, path).0),
{
    let p = normalize(path);
    if unlink_spec(fs, path).1 is Ok {
        if fs[p] is Dir {
            assert(fs[p] == NodeView::Dir(Set::empty()));
        }
        lemma_tree_remove(fs, p);
    }
}

/// A write keeps the nodes a tree.
pub proof fn law_write_keeps_tree(fs: FsView, h: HandleView, data: Seq<u8>)
    requires
        is_tree(fs),
    ensures
        is_tree(write_spec(fs, h, data).0),
{
    let g = write_spec(fs, h, data).0;
    if fs.contains_key(h.path) && fs[h.path] is File {
        assert forall|d: Seq<char>, n: Seq<char>|
            #![trigger g[d]->Dir_0.contains(n)]
            g.contains_key(d) && g[d] is Dir && g[d]->Dir_0.contains(n) implies entry_name(n)
                && g.contains_key(crate::fs::memfs::child_path(d, n)) by {
            assert(fs[d]->Dir_0.contains(n));
        }
        assert forall|q: Seq<char>| #[trigger] g.contains_key(q) && q != slash() implies ({
            let pq = parent_of(q)->Some_0;
            &&& parent_of(q) is Some
            &&& g.contains_key(pq)
            &&& g[pq] is Dir
            &&& g[pq]->Dir_0.contains(path_name(q))
        }) by {
            assert(fs.contains_key(q));
        }
    }
}

/// `rename` keeps the nodes a tree when it moves a file or an empty
/// directory to a plain path whose parent is a directory other than the
/// node moved; moving a directory with children leaves them without a
/// parent.
pub proof fn law_rename_keeps_tree(fs: FsView, from: Seq<char>, to: Seq<char>)
    requires
        is_tree(fs),
        rename_spec(fs, from, to).1 is Ok ==> ({
            let f = normalize(from);
            let t = normalize(to);
            let tp = parent_of(t)->Some_0;
            &&& canonical(t)
            &&& fs[f] is File || fs[f] == NodeView::Dir(Set::empty())
            &&& fs.contains_key(tp) && fs[tp] is Dir
            &&& tp != f
        }),
    ensures
        is_tree(rename_spec(fs, from, to).0),
{
    if rename_spec(fs, from, to).1 is Ok {
        let f = normalize(from);
        let t = normalize(to);
        let fp = parent_of(f)->Some_0;
        let tp = parent_of(t)->Some_0;
        let nf = path_name(f);
        let nt = path_name(t);
        let node = fs[f];
        assert(f != slash());
        lemma_tree_remove(fs, f);
        let a = without_entry(fs, fp, nf).remove(f);
        assert(fs.contains_key(fp) && fs[fp] is Dir);
        assert(a.contains_key(tp) && a[tp] is Dir);
        lemma_tree_insert(a, t, node);
        let moved = fs.remove(f).insert(t, node);
        lemma_canonical_parent(f);
        assert(without_entry(moved, fp, nf) =~= a.insert(t, node));
    }
}

} // verus!
