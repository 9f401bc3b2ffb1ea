//! What the shell's builtins do to files, stated against reading files to
//! their end: `touch` leaves existing files alone, `rm` removes every file
//! it names, and `cat`, `wc`, `head` and `tail` work on the whole of a
//! file.
use vstd::prelude::*;

use crate::builtins::fs::{
    cat_run, chunked_lossy, create_flags, read_flags, read_rest, resolve_path_spec, rm_each, rm_run,
    touch_each, touch_run,
};
use crate::builtins::text::{head_tail_args, head_tail_run, lines_text, wc_run};
use crate::fs::memfs::{normalize, open_spec, parent_of, slash, unlink_spec, NodeView};
use crate::laws::{file_content, root_is_dir};
use crate::strs::{dec, lines, pad_left, split_ws, utf8_lossy};
use crate::vfs::namespace::{ns_open, ns_stat, ns_unlink, resolve_spec, NsView};
use crate::vfs::traits::{FsError, Metadata, NodeType};

verus! {

/// Every file of `ns` is in `ns2` with the same bytes, under the same
/// mount points.
pub open spec fn files_kept(ns: NsView, ns2: NsView) -> bool {
    &&& ns2.dom() == ns.dom()
    &&& forall|m: Seq<char>, p: Seq<char>|
        #![trigger ns2[m].contains_key(p)]
        #![trigger ns[m][p]]
        ns.contains_key(m) && ns[m].contains_key(p) && ns[m][p] is File ==> ns2[m].contains_key(p)
            && ns2[m][p] == ns[m][p]
}

/// The node a path names: its file system's mount point and its path in
/// that file system.
pub open spec fn node_of(ns: NsView, path: Seq<char>) -> Option<(Seq<char>, Seq<char>)> {
    match resolve_spec(ns, path) {
        Some((m, rel)) => Some((m, normalize(rel))),
        None => None,
    }
}

/// The mount point a path resolves to is a mount point.
proof fn lemma_resolve_in_dom(ns: NsView, path: Seq<char>)
    ensures
        resolve_spec(ns, path) matches Some((m, _)) ==> ns.contains_key(m),
{
    if let Some((m, _)) = resolve_spec(ns, path) {
        let w = choose|w: Seq<char>| crate::vfs::namespace::is_best_mount(ns.dom(), path, w);
        assert(crate::vfs::namespace::is_best_mount(ns.dom(), path, w));
    }
}

/// Reading a file to its end gives the same bytes in a namespace with the
/// same mount points where that file's node is the same.
proof fn lemma_file_content_node(ns: NsView, ns2: NsView, q: Seq<char>)
    requires
        ns2.dom() == ns.dom(),
        file_content(ns, q) is Ok,
        ({
            let (m, rel) = resolve_spec(ns, q)->Some_0;
            ns2[m].contains_key(normalize(rel)) && ns2[m][normalize(rel)] == ns[m][normalize(rel)]
        }),
    ensures
        file_content(ns2, q) == file_content(ns, q),
{
    lemma_resolve_in_dom(ns, q);
    assert(resolve_spec(ns2, q) == resolve_spec(ns, q));
    let (m, rel) = resolve_spec(ns, q)->Some_0;
    let p = normalize(rel);
    assert(ns[m].contains_key(p));
    assert(ns[m][p] is File);
}

/// Reading a file to its end gives the same bytes in a namespace that
/// kept every file.
proof fn lemma_file_content_kept(ns: NsView, ns2: NsView, q: Seq<char>)
    requires
        files_kept(ns, ns2),
        file_content(ns, q) is Ok,
    ensures
        file_content(ns2, q) == file_content(ns, q),
{
    lemma_resolve_in_dom(ns, q);
    let (m, rel) = resolve_spec(ns, q)->Some_0;
    let p = normalize(rel);
    assert(ns[m].contains_key(p));
    assert(ns[m][p] is File);
    lemma_file_content_node(ns, ns2, q);
}

proof fn lemma_files_kept_trans(a: NsView, b: NsView, c: NsView)
    requires
        files_kept(a, b),
        files_kept(b, c),
    ensures
        files_kept(a, c),
{
    assert forall|m: Seq<char>, p: Seq<char>|
        a.contains_key(m) && a[m].contains_key(p) && a[m][p] is File implies c[m].contains_key(p)
            && c[m][p] == a[m][p] by {
        assert(b[m].contains_key(p) && b[m][p] == a[m][p]);
    }
}

/// Opening with `create` keeps every file.
proof fn lemma_create_keeps_files(ns: NsView, path: Seq<char>)
    ensures
        files_kept(ns, ns_open(ns, path, create_flags()).0),
{
    let ns2 = ns_open(ns, path, create_flags()).0;
    lemma_resolve_in_dom(ns, path);
    if let Some((m, rel)) = resolve_spec(ns, path) {
        assert(ns2.dom() =~= ns.dom());
        let fs = ns[m];
        let p = normalize(rel);
        let fs2 = open_spec(fs, rel, create_flags()).0;
        assert forall|p2: Seq<char>| fs.contains_key(p2) && fs[p2] is File implies fs2.contains_key(p2)
            && fs2[p2] == fs[p2] by {
            if !fs.contains_key(p) {
                if let Some(par) = parent_of(p) {
                    if crate::fs::memfs::dir_status(fs, par) is Ok {
                        assert(p2 != par);
                        assert(p2 != p);
                    }
                }
            }
        }
    } else {
        assert(ns2 == ns);
    }
}

/// `touch` of each argument keeps every file.
proof fn lemma_touch_each_keeps_files(ns: NsView, cwd: Seq<char>, args: Seq<Seq<char>>)
    ensures
        files_kept(ns, touch_each(ns, cwd, args).0),
    decreases args.len(),
{
    if args.len() > 0 {
        let prev = touch_each(ns, cwd, args.drop_last());
        lemma_touch_each_keeps_files(ns, cwd, args.drop_last());
        let path = resolve_path_spec(cwd, args.last());
        lemma_create_keeps_files(prev.0, path);
        lemma_files_kept_trans(ns, prev.0, ns_open(prev.0, path, create_flags()).0);
    }
}

/// `touch` leaves every existing file alone: reading any path that named
/// a file before `touch` gives the same bytes after it.
pub proof fn law_touch_keeps_files(ns: NsView, cwd: Seq<char>, args: Seq<Seq<char>>, q: Seq<char>)
    requires
        file_content(ns, q) is Ok,
    ensures
        file_content(touch_run(ns, cwd, args).0, q) == file_content(ns, q),
{
    if args.len() > 0 {
        lemma_touch_each_keeps_files(ns, cwd, args);
        lemma_file_content_kept(ns, touch_run(ns, cwd, args).0, q);
    }
}

/// `ns2` holds no node that `ns` did not, every file it keeps has the same
/// bytes, and the mount points are the same.
pub open spec fn only_removed(ns: NsView, ns2: NsView) -> bool {
    &&& ns2.dom() == ns.dom()
    &&& forall|m: Seq<char>, p: Seq<char>|
        #![trigger ns2[m].contains_key(p)]
        ns.contains_key(m) && ns2[m].contains_key(p) ==> ns[m].contains_key(p) && (ns[m][p] is File
            ==> ns2[m][p] == ns[m][p])
}

proof fn lemma_only_removed_trans(a: NsView, b: NsView, c: NsView)
    requires
        only_removed(a, b),
        only_removed(b, c),
    ensures
        only_removed(a, c),
{
    assert forall|m: Seq<char>, p: Seq<char>| a.contains_key(m) && c[m].contains_key(p) implies a[m].contains_key(p)
        && (a[m][p] is File ==> c[m][p] == a[m][p]) by {
        assert(b[m].contains_key(p));
    }
}

/// `unlink` only removes nodes.
proof fn lemma_unlink_only_removes(ns: NsView, path: Seq<char>)
    ensures
        only_removed(ns, ns_unlink(ns, path).0),
{
    let ns2 = ns_unlink(ns, path).0;
    lemma_resolve_in_dom(ns, path);
    if let Some((m, rel)) = resolve_spec(ns, path) {
        assert(ns2.dom() =~= ns.dom());
        let fs = ns[m];
        let fs2 = unlink_spec(fs, rel).0;
        assert forall|p2: Seq<char>| fs2.contains_key(p2) implies fs.contains_key(p2) && (fs[p2] is File
            ==> fs2[p2] == fs[p2]) by {}
        assert forall|m2: Seq<char>, p2: Seq<char>| ns.contains_key(m2) && ns2[m2].contains_key(p2) implies ns[m2].contains_key(p2)
            && (ns[m2][p2] is File ==> ns2[m2][p2] == ns[m2][p2]) by {
            if m2 == m {
                assert(fs2.contains_key(p2));
            }
        }
    } else {
        assert(ns2 == ns);
    }
}

proof fn lemma_rm_each_only_removes(ns: NsView, cwd: Seq<char>, args: Seq<Seq<char>>)
    ensures
        only_removed(ns, rm_each(ns, cwd, args).0),
    decreases args.len(),
{
    if args.len() > 0 {
        let prev = rm_each(ns, cwd, args.drop_last());
        lemma_rm_each_only_removes(ns, cwd, args.drop_last());
        let path = resolve_path_spec(cwd, args.last());
        lemma_unlink_only_removes(prev.0, path);
        lemma_only_removed_trans(ns, prev.0, ns_unlink(prev.0, path).0);
    } else {
        assert(rm_each(ns, cwd, args).0 == ns);
    }
}

/// After `rm` of each argument, the node that argument `i` named as a file
/// is gone from its file system.
proof fn lemma_rm_each_removes(ns: NsView, cwd: Seq<char>, args: Seq<Seq<char>>, i: int)
    requires
        0 <= i < args.len(),
        forall|m: Seq<char>| #[trigger] ns.contains_key(m) ==> root_is_dir(ns[m]),
        ns_stat(ns, resolve_path_spec(cwd, args[i])) matches Ok(md) && md.node_type == NodeType::File,
    ensures
        ({
            let (m, rel) = resolve_spec(ns, resolve_path_spec(cwd, args[i]))->Some_0;
            !rm_each(ns, cwd, args).0[m].contains_key(normalize(rel))
        }),
    decreases args.len(),
{
    let q = resolve_path_spec(cwd, args[i]);
    lemma_resolve_in_dom(ns, q);
    let (m, rel) = resolve_spec(ns, q)->Some_0;
    let p = normalize(rel);
    assert(ns[m].contains_key(p) && ns[m][p] is File);
    let prev = rm_each(ns, cwd, args.drop_last());
    lemma_rm_each_only_removes(ns, cwd, args.drop_last());
    let path = resolve_path_spec(cwd, args.last());
    let step = ns_unlink(prev.0, path);
    assert(rm_each(ns, cwd, args).0 == step.0);
    lemma_unlink_only_removes(prev.0, path);
    if i < args.len() - 1 {
        assert(args.drop_last()[i] == args[i]);
        lemma_rm_each_removes(ns, cwd, args.drop_last(), i);
        assert(!prev.0[m].contains_key(p));
        assert(prev.0.contains_key(m));
    } else {
        assert(path == q);
        assert(resolve_spec(prev.0, q) == resolve_spec(ns, q));
        if prev.0[m].contains_key(p) {
            assert(prev.0[m][p] == ns[m][p]);
            assert(p != slash());
        }
    }
}

/// `rm` removes every file it is given, whatever happened to the other
/// arguments: a path that named a file before `rm` names nothing after it.
pub proof fn law_rm_removes_files(ns: NsView, cwd: Seq<char>, args: Seq<Seq<char>>, i: int)
    requires
        0 <= i < args.len(),
        forall|m: Seq<char>| #[trigger] ns.contains_key(m) ==> root_is_dir(ns[m]),
        ns_stat(ns, resolve_path_spec(cwd, args[i])) matches Ok(md) && md.node_type == NodeType::File,
    ensures
        ns_stat(rm_run(ns, cwd, args).0, resolve_path_spec(cwd, args[i])) == Err::<Metadata, FsError>(
            FsError::NotFound,
        ),
{
    let q = resolve_path_spec(cwd, args[i]);
    lemma_rm_each_removes(ns, cwd, args, i);
    lemma_rm_each_only_removes(ns, cwd, args);
    let after = rm_run(ns, cwd, args).0;
    assert(resolve_spec(after, q) == resolve_spec(ns, q));
}

/// How `cat` decodes a file, read in blocks of 1024 bytes: nothing for no
/// bytes, one decoding for a single block, and block-aligned pieces decoded
/// one after the other, so that every byte of the file is decoded once.
pub proof fn law_chunked_lossy_blocks(a: Seq<u8>, b: Seq<u8>)
    ensures
        chunked_lossy(Seq::<u8>::empty()) == Seq::<char>::empty(),
        0 < b.len() <= 1024 ==> chunked_lossy(b) == utf8_lossy(b),
        a.len() % 1024 == 0 ==> chunked_lossy(a + b) == chunked_lossy(a) + chunked_lossy(b),
    decreases a.len(),
{
    if a.len() % 1024 == 0 {
        if a.len() == 0 {
            assert(a + b =~= b);
        } else if b.len() == 0 {
            assert(a + b =~= a);
        } else {
            let ab = a + b;
            assert(ab.take(1024) =~= a.take(1024));
            assert(ab.skip(1024) =~= a.skip(1024) + b);
            law_chunked_lossy_blocks(a.skip(1024), b);
            if a.len() == 1024 {
                assert(a.take(1024) =~= a);
                assert(a.skip(1024) =~= Seq::<u8>::empty());
                assert(a.skip(1024) + b =~= b);
            }
        }
    }
}

/// `cat` of one file outputs the decoding, block by block, of the whole of
/// the file as reading it to its end gives it; of a path that cannot be
/// read, the error line. `cat` of several arguments outputs what `cat` of
/// each outputs, in order.
pub proof fn law_cat_whole_file(ns: NsView, cwd: Seq<char>, args: Seq<Seq<char>>, a: Seq<char>)
    ensures
        file_content(ns, resolve_path_spec(cwd, a)) matches Ok(c) ==> cat_run(ns, cwd, seq![a])
            == (ns, chunked_lossy(c), 0i32),
        file_content(ns, resolve_path_spec(cwd, a)) matches Err(e) ==> cat_run(ns, cwd, seq![a])
            == (ns, crate::builtins::fs::error_line("cat: "@, resolve_path_spec(cwd, a), ": "@, e), 1i32),
        args.len() > 0 ==> cat_run(ns, cwd, args.push(a)).1 == cat_run(ns, cwd, args).1 + cat_run(
            ns,
            cwd,
            seq![a],
        ).1,
{
    let one = seq![a];
    let path = resolve_path_spec(cwd, a);
    assert(one.drop_last() =~= Seq::<Seq<char>>::empty());
    assert(one.last() == a);
    assert(args.push(a).drop_last() =~= args);
    assert(args.push(a).last() == a);
    let e0 = crate::builtins::fs::cat_each(ns, cwd, Seq::<Seq<char>>::empty());
    assert(e0 == (Seq::<char>::empty(), 0i32));
    let whole = crate::builtins::fs::cat_each(ns, cwd, one);
    let x = match ns_open(ns, path, read_flags()).1 {
        Err(e) => crate::builtins::fs::error_line("cat: "@, path, ": "@, e),
        Ok(f) => match read_rest(ns, f) {
            Ok(b) => chunked_lossy(b),
            Err(e) => crate::builtins::fs::error_line("cat: "@, path, ": "@, e),
        },
    };
    assert(whole.0 == Seq::<char>::empty() + x);
    assert(Seq::<char>::empty() + x =~= x);
    if args.len() > 0 {
        let prev = crate::builtins::fs::cat_each(ns, cwd, args);
        assert(crate::builtins::fs::cat_each(ns, cwd, args.push(a)).0 == prev.0 + x);
    }
}

/// `wc file` counts the whole file as reading it to its end gives it: the
/// lines and the words of its decoding and the number of its bytes, each
/// right-aligned in 8 columns, then the name as given; of a path that
/// cannot be read, the error line.
pub proof fn law_wc_whole_file(ns: NsView, cwd: Seq<char>, args: Seq<Seq<char>>)
    requires
        args.len() > 0,
    ensures
        file_content(ns, resolve_path_spec(cwd, args[0])) matches Ok(c) ==> wc_run(ns, cwd, args) == (
            ns,
            pad_left(dec(lines(utf8_lossy(c)).len()), 8) + " "@ + pad_left(dec(split_ws(utf8_lossy(c)).len()), 8)
                + " "@ + pad_left(dec(c.len()), 8) + " "@ + args[0] + "\r\n"@,
            0i32,
        ),
        file_content(ns, resolve_path_spec(cwd, args[0])) matches Err(e) ==> wc_run(ns, cwd, args) == (
            ns,
            crate::builtins::fs::error_line("wc: "@, resolve_path_spec(cwd, args[0]), ": "@, e),
            1i32,
        ),
{
}

/// The number of lines `head` and `tail` print: `n`, or every line if
/// there are fewer.
pub open spec fn shown(count: nat, n: usize) -> nat {
    if n < count {
        n as nat
    } else {
        count
    }
}

/// `head -n N file` prints the first `N` lines, and `tail -n N file` the
/// last `N`, of the decoding of the whole file as reading it to its end
/// gives it, each followed by `\r\n`; of a path that cannot be read, the
/// error line.
pub proof fn law_head_tail_whole_file(ns: NsView, cwd: Seq<char>, args: Seq<Seq<char>>, from_end: bool)
    requires
        head_tail_args(cwd, args).0 is Some,
    ensures
        ({
            let (p, n) = (head_tail_args(cwd, args).0->Some_0, head_tail_args(cwd, args).1);
            file_content(ns, p) matches Ok(c) ==> ({
                let ls = lines(utf8_lossy(c));
                let k = shown(ls.len(), n);
                head_tail_run(ns, cwd, args, from_end) == (
                    ns,
                    lines_text(
                        if from_end {
                            ls.subrange(ls.len() - k, ls.len() as int)
                        } else {
                            ls.subrange(0, k as int)
                        },
                    ),
                    0i32,
                )
            })
        }),
        ({
            let p = head_tail_args(cwd, args).0->Some_0;
            let name = if from_end { "tail: "@ } else { "head: "@ };
            file_content(ns, p) matches Err(e) ==> head_tail_run(ns, cwd, args, from_end) == (
                ns,
                crate::builtins::fs::error_line(name, p, ": "@, e),
                1i32,
            )
        }),
{
    let (p, n) = (head_tail_args(cwd, args).0->Some_0, head_tail_args(cwd, args).1);
    if let Ok(c) = file_content(ns, p) {
        let ls = lines(utf8_lossy(c));
        let k = shown(ls.len(), n);
        assert(ls.subrange(ls.len() - k, ls.len() as int) =~= crate::builtins::text::last_lines(ls, n));
        assert(ls.subrange(0, k as int) =~= crate::builtins::text::first_lines(ls, n));
    }
    if from_end {
        assert("tail"@ + ": "@ =~= "tail: "@) by {
            reveal_strlit("tail");
            reveal_strlit(": ");
            reveal_strlit("tail: ");
        }
    } else {
        assert("head"@ + ": "@ =~= "head: "@) by {
            reveal_strlit("head");
            reveal_strlit(": ");
            reveal_strlit("head: ");
        }
    }
}

/// `ns2` keeps every node of `ns` (files with the same bytes, directories
/// as directories), under the same mount points, and every node it adds
/// is an empty file.
pub open spec fn only_empty_files_added(ns: NsView, ns2: NsView) -> bool {
    &&& ns2.dom() == ns.dom()
    &&& forall|m: Seq<char>, p: Seq<char>|
        #![trigger ns2[m].contains_key(p)]
        #![trigger ns[m][p]]
        ns.contains_key(m) && ns[m].contains_key(p) ==> ns2[m].contains_key(p) && (ns[m][p] is File
            ==> ns2[m][p] == ns[m][p]) && (ns[m][p] is Dir ==> ns2[m][p] is Dir)
    &&& forall|m: Seq<char>, p: Seq<char>|
        #![trigger ns2[m].contains_key(p)]
        ns.contains_key(m) && ns2[m].contains_key(p) && !ns[m].contains_key(p) ==> ns2[m][p]
            == NodeView::File(Seq::empty())
}

proof fn lemma_only_empty_files_added_trans(a: NsView, b: NsView, c: NsView)
    requires
        only_empty_files_added(a, b),
        only_empty_files_added(b, c),
    ensures
        only_empty_files_added(a, c),
{
    assert forall|m: Seq<char>, p: Seq<char>| a.contains_key(m) && a[m].contains_key(p) implies c[m].contains_key(p)
        && (a[m][p] is File ==> c[m][p] == a[m][p]) && (a[m][p] is Dir ==> c[m][p] is Dir) by {
        assert(b[m].contains_key(p));
    }
    assert forall|m: Seq<char>, p: Seq<char>|
        a.contains_key(m) && c[m].contains_key(p) && !a[m].contains_key(p) implies c[m][p]
            == NodeView::File(Seq::empty()) by {
        if b[m].contains_key(p) {
            assert(b[m][p] == NodeView::File(Seq::<u8>::empty()));
        }
    }
}

/// Opening with `create` adds at most an empty file.
proof fn lemma_create_adds_empty_file(ns: NsView, path: Seq<char>)
    ensures
        only_empty_files_added(ns, ns_open(ns, path, create_flags()).0),
{
    let ns2 = ns_open(ns, path, create_flags()).0;
    lemma_resolve_in_dom(ns, path);
    if let Some((m, rel)) = resolve_spec(ns, path) {
        assert(ns2.dom() =~= ns.dom());
        let fs = ns[m];
        let p = normalize(rel);
        let fs2 = open_spec(fs, rel, create_flags()).0;
        assert forall|p2: Seq<char>| fs.contains_key(p2) implies fs2.contains_key(p2) && (fs[p2] is File
            ==> fs2[p2] == fs[p2]) && (fs[p2] is Dir ==> fs2[p2] is Dir) by {
            if !fs.contains_key(p) {
                if let Some(par) = parent_of(p) {
                    if crate::fs::memfs::dir_status(fs, par) is Ok {
                        assert(p2 != p);
                    }
                }
            }
        }
        assert forall|p2: Seq<char>| fs2.contains_key(p2) && !fs.contains_key(p2) implies fs2[p2]
            == NodeView::File(Seq::empty()) by {
            if let Some(par) = parent_of(p) {
                if crate::fs::memfs::dir_status(fs, par) is Ok {
                    assert(p2 != par);
                }
            }
        }
        assert forall|m2: Seq<char>, p2: Seq<char>| ns.contains_key(m2) && ns[m2].contains_key(p2) implies ns2[m2].contains_key(p2)
            && (ns[m2][p2] is File ==> ns2[m2][p2] == ns[m2][p2]) && (ns[m2][p2] is Dir ==> ns2[m2][p2] is Dir) by {
            if m2 == m {
                assert(fs.contains_key(p2));
            }
        }
        assert forall|m2: Seq<char>, p2: Seq<char>|
            ns.contains_key(m2) && ns2[m2].contains_key(p2) && !ns[m2].contains_key(p2) implies ns2[m2][p2]
                == NodeView::File(Seq::empty()) by {
            if m2 == m {
                assert(fs2.contains_key(p2));
            }
        }
    } else {
        assert(ns2 == ns);
    }
}

proof fn lemma_touch_each_adds_empty_files(ns: NsView, cwd: Seq<char>, args: Seq<Seq<char>>)
    ensures
        only_empty_files_added(ns, touch_each(ns, cwd, args).0),
    decreases args.len(),
{
    if args.len() > 0 {
        let prev = touch_each(ns, cwd, args.drop_last());
        lemma_touch_each_adds_empty_files(ns, cwd, args.drop_last());
        let path = resolve_path_spec(cwd, args.last());
        lemma_create_adds_empty_file(prev.0, path);
        lemma_only_empty_files_added_trans(ns, prev.0, ns_open(prev.0, path, create_flags()).0);
    } else {
        assert(touch_each(ns, cwd, args).0 == ns);
    }
}

/// After `touch` of each argument, argument `i`, which named nothing in an
/// existing directory, names an empty file.
proof fn lemma_touch_each_creates(ns: NsView, cwd: Seq<char>, args: Seq<Seq<char>>, i: int)
    requires
        0 <= i < args.len(),
        node_of(ns, resolve_path_spec(cwd, args[i])) is Some,
        ({
            let (m, p) = node_of(ns, resolve_path_spec(cwd, args[i]))->Some_0;
            &&& !ns[m].contains_key(p)
            &&& parent_of(p) is Some
            &&& ns[m].contains_key(parent_of(p)->Some_0)
            &&& ns[m][parent_of(p)->Some_0] is Dir
        }),
    ensures
        ({
            let (m, rel) = resolve_spec(ns, resolve_path_spec(cwd, args[i]))->Some_0;
            let after = touch_each(ns, cwd, args).0;
            after[m].contains_key(normalize(rel)) && after[m][normalize(rel)] == NodeView::File(Seq::empty())
        }),
    decreases args.len(),
{
    let q = resolve_path_spec(cwd, args[i]);
    lemma_resolve_in_dom(ns, q);
    let (m, rel) = resolve_spec(ns, q)->Some_0;
    let p = normalize(rel);
    let par = parent_of(p)->Some_0;
    let prev = touch_each(ns, cwd, args.drop_last());
    lemma_touch_each_adds_empty_files(ns, cwd, args.drop_last());
    let path = resolve_path_spec(cwd, args.last());
    let next = ns_open(prev.0, path, create_flags()).0;
    assert(touch_each(ns, cwd, args).0 == next);
    lemma_create_adds_empty_file(prev.0, path);
    if i < args.len() - 1 {
        assert(args.drop_last()[i] == args[i]);
        lemma_touch_each_creates(ns, cwd, args.drop_last(), i);
        assert(prev.0[m].contains_key(p));
        assert(next[m].contains_key(p));
    } else {
        assert(path == q);
        assert(resolve_spec(prev.0, q) == resolve_spec(ns, q));
        assert(prev.0[m].contains_key(par) && prev.0[m][par] is Dir);
        if prev.0[m].contains_key(p) {
            assert(prev.0[m][p] == NodeView::File(Seq::<u8>::empty()));
        }
    }
}

/// `touch` creates each missing file whose directory exists: a path that
/// named nothing in an existing directory names an empty file afterwards,
/// whatever happened to the other arguments.
pub proof fn law_touch_creates_missing(ns: NsView, cwd: Seq<char>, args: Seq<Seq<char>>, i: int)
    requires
        0 <= i < args.len(),
        node_of(ns, resolve_path_spec(cwd, args[i])) is Some,
        ({
            let (m, p) = node_of(ns, resolve_path_spec(cwd, args[i]))->Some_0;
            &&& !ns[m].contains_key(p)
            &&& parent_of(p) is Some
            &&& ns[m].contains_key(parent_of(p)->Some_0)
            &&& ns[m][parent_of(p)->Some_0] is Dir
        }),
    ensures
        ns_stat(touch_run(ns, cwd, args).0, resolve_path_spec(cwd, args[i])) == Ok::<Metadata, FsError>(
            Metadata { node_type: NodeType::File, size: 0 },
        ),
        file_content(touch_run(ns, cwd, args).0, resolve_path_spec(cwd, args[i])) == Ok::<Seq<u8>, FsError>(
            Seq::empty(),
        ),
{
    let q = resolve_path_spec(cwd, args[i]);
    lemma_touch_each_creates(ns, cwd, args, i);
    lemma_touch_each_adds_empty_files(ns, cwd, args);
    let after = touch_run(ns, cwd, args).0;
    assert(resolve_spec(after, q) == resolve_spec(ns, q));
}

/// `rm` removes only what it is given: reading a path that named a file
/// that no argument names gives the same bytes after `rm` as before.
pub proof fn law_rm_keeps_others(ns: NsView, cwd: Seq<char>, args: Seq<Seq<char>>, q: Seq<char>)
    requires
        file_content(ns, q) is Ok,
        forall|i: int|
            0 <= i < args.len() ==> #[trigger] node_of(ns, resolve_path_spec(cwd, args[i])) != node_of(ns, q),
    ensures
        file_content(rm_run(ns, cwd, args).0, q) == file_content(ns, q),
{
    if args.len() > 0 {
        lemma_rm_each_keeps(ns, cwd, args, q);
        lemma_file_content_node(ns, rm_run(ns, cwd, args).0, q);
    }
}

proof fn lemma_rm_each_keeps(ns: NsView, cwd: Seq<char>, args: Seq<Seq<char>>, q: Seq<char>)
    requires
        file_content(ns, q) is Ok,
        forall|i: int|
            0 <= i < args.len() ==> #[trigger] node_of(ns, resolve_path_spec(cwd, args[i])) != node_of(ns, q),
    ensures
        ({
            let (m, rel) = resolve_spec(ns, q)->Some_0;
            let after = rm_each(ns, cwd, args).0;
            after.dom() == ns.dom() && after[m].contains_key(normalize(rel)) && after[m][normalize(rel)]
                == ns[m][normalize(rel)]
        }),
    decreases args.len(),
{
    lemma_resolve_in_dom(ns, q);
    let (m, rel) = resolve_spec(ns, q)->Some_0;
    let p = normalize(rel);
    assert(ns[m].contains_key(p) && ns[m][p] is File);
    if args.len() == 0 {
        assert(rm_each(ns, cwd, args).0 == ns);
    } else {
        let prev = rm_each(ns, cwd, args.drop_last());
        assert forall|i: int| 0 <= i < args.drop_last().len() implies #[trigger] node_of(ns, resolve_path_spec(cwd, args.drop_last()[i])) != node_of(ns, q) by {
            assert(args.drop_last()[i] == args[i]);
            assert(node_of(ns, resolve_path_spec(cwd, args[i])) != node_of(ns, q));
        }
        lemma_rm_each_keeps(ns, cwd, args.drop_last(), q);
        lemma_rm_each_only_removes(ns, cwd, args.drop_last());
        let path = resolve_path_spec(cwd, args.last());
        assert(resolve_spec(prev.0, path) == resolve_spec(ns, path));
        assert(node_of(ns, resolve_path_spec(cwd, args[args.len() - 1])) != node_of(ns, q));
        lemma_resolve_in_dom(prev.0, path);
        let next = ns_unlink(prev.0, path).0;
        assert(rm_each(ns, cwd, args).0 == next);
        assert(next.dom() =~= ns.dom());
    }
}

/// Reading a path to its end, as `cat`, `wc`, `head` and `tail` do, gives
/// all the bytes of the file it names.
pub proof fn law_read_to_end_is_whole_file(ns: NsView, q: Seq<char>)
    requires
        node_of(ns, q) is Some,
        ({
            let (m, p) = node_of(ns, q)->Some_0;
            ns[m].contains_key(p) && ns[m][p] is File
        }),
    ensures
        file_content(ns, q) == Ok::<Seq<u8>, FsError>(ns[node_of(ns, q)->Some_0.0][node_of(ns, q)->Some_0.1]->File_0),
{
    let (m, p) = node_of(ns, q)->Some_0;
    lemma_resolve_in_dom(ns, q);
    let d = ns[m][p]->File_0;
    if d.len() > 0 {
        assert(d.skip(0) =~= d);
    } else {
        assert(d =~= Seq::<u8>::empty());
    }
}

} // verus!
