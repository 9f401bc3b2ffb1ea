//! The text builtins of the shell: echo, head, tail and wc.
use vstd::prelude::*;

use crate::builtins::fs::{
    append_error, arg_views, error_line, lemma_open_read_unchanged, read_flags, read_rest,
    read_to_end, resolve_path, resolve_path_spec,
};
use crate::vfs::namespace::{ns_open, Namespace, NsView};
use crate::strs::{
    append_joined, append_padded_decimal, dec, decode_lossy, join_with, lines, pad_left,
    parse_decimal, parse_usize, split_lines, split_words, split_ws, str_equal, to_chars,
    utf8_lossy,
};
use crate::vfs::traits::{KPath, OpenFlags};

verus! {

pub open spec fn echo_run(ns: NsView, args: Seq<Seq<char>>) -> (NsView, Seq<char>, i32) {
    (ns, join_with(args, " "@) + "\r\n"@, 0)
}

/// The arguments of `head` and `tail` from position `i` on: `-n N` sets
/// the count when `N` parses, a word not starting with `-` names the file
/// (the last one wins), other words are skipped.
pub open spec fn scan_head_tail(
    cwd: Seq<char>,
    args: Seq<Seq<char>>,
    i: int,
    n: usize,
    path: Option<Seq<char>>,
) -> (Option<Seq<char>>, usize)
    decreases args.len() - i,
{
    if i < 0 || i >= args.len() {
        (path, n)
    } else if args[i] == "-n"@ && i + 1 < args.len() {
        let m = match parse_usize(args[i + 1]) {
            Some(v) => v,
            None => n,
        };
        scan_head_tail(cwd, args, i + 2, m, path)
    } else if !(args[i].len() > 0 && args[i][0] == '-') {
        scan_head_tail(cwd, args, i + 1, n, Some(resolve_path_spec(cwd, args[i])))
    } else {
        scan_head_tail(cwd, args, i + 1, n, path)
    }
}

/// The file and line count that `head` and `tail` use; 10 lines unless
/// `-n` says otherwise.
pub open spec fn head_tail_args(cwd: Seq<char>, args: Seq<Seq<char>>) -> (Option<Seq<char>>, usize) {
    scan_head_tail(cwd, args, 0, 10, None)
}

/// Each line followed by `\r\n`.
pub open spec fn lines_text(ls: Seq<Seq<char>>) -> Seq<char>
    decreases ls.len(),
{
    if ls.len() == 0 {
        seq![]
    } else {
        lines_text(ls.drop_last()) + ls.last() + "\r\n"@
    }
}

/// The first `n` lines.
pub open spec fn first_lines(ls: Seq<Seq<char>>, n: usize) -> Seq<Seq<char>> {
    if n < ls.len() {
        ls.take(n as int)
    } else {
        ls
    }
}

/// The last `n` lines.
pub open spec fn last_lines(ls: Seq<Seq<char>>, n: usize) -> Seq<Seq<char>> {
    if ls.len() > n {
        ls.skip(ls.len() - n)
    } else {
        ls
    }
}

/// `head` (`tail` when `from_end`): the chosen lines of the named file.
pub open spec fn head_tail_run(ns: NsView, cwd: Seq<char>, args: Seq<Seq<char>>, from_end: bool) -> (
    NsView,
    Seq<char>,
    i32,
) {
    let name = if from_end {
        "tail"@
    } else {
        "head"@
    };
    let (path, n) = head_tail_args(cwd, args);
    match path {
        None => (ns, name + ": missing file operand\r\n"@, 1),
        Some(p) => match ns_open(ns, p, read_flags()).1 {
            Err(e) => (ns, error_line(name + ": "@, p, ": "@, e), 1),
            Ok(f) => match read_rest(ns, f) {
                Err(e) => (ns, error_line(name + ": "@, p, ": "@, e), 1),
                Ok(content) => (ns, chosen_lines_text(utf8_lossy(content), n, from_end), 0),
            },
        },
    }
}

/// The chosen lines of a text, each followed by `\r\n`: the last `n` when
/// `from_end`, else the first `n`.
pub open spec fn chosen_lines_text(text: Seq<char>, n: usize, from_end: bool) -> Seq<char> {
    lines_text(
        if from_end {
            last_lines(lines(text), n)
        } else {
            first_lines(lines(text), n)
        },
    )
}

/// The line of `wc` for a text of `bytes` bytes: lines, words and bytes,
/// each right-aligned in 8 columns, then the name as given.
pub open spec fn wc_line(text: Seq<char>, bytes: nat, name: Seq<char>) -> Seq<char> {
    pad_left(dec(lines(text).len()), 8) + " "@ + pad_left(dec(split_ws(text).len()), 8) + " "@
        + pad_left(dec(bytes), 8) + " "@ + name + "\r\n"@
}

/// `wc file`: lines, words and bytes, each right-aligned in 8 columns,
/// then the name as given.
pub open spec fn wc_run(ns: NsView, cwd: Seq<char>, args: Seq<Seq<char>>) -> (NsView, Seq<char>, i32) {
    if args.len() == 0 {
        (ns, "wc: missing file operand\r\n"@, 1)
    } else {
        let path = resolve_path_spec(cwd, args[0]);
        match ns_open(ns, path, read_flags()).1 {
            Err(e) => (ns, error_line("wc: "@, path, ": "@, e), 1),
            Ok(f) => match read_rest(ns, f) {
                Err(e) => (ns, error_line("wc: "@, path, ": "@, e), 1),
                Ok(content) => (ns, wc_line(utf8_lossy(content), content.len(), args[0]), 0),
            },
        }
    }
}

pub fn run_echo(args: &[String], out: &mut String) -> (code: i32)
    ensures
        final(out)@ == old(out)@ + join_with(arg_views(args@), " "@) + "\r\n"@,
        code == 0,
{
    append_joined(out, args, " ");
    out.append("\r\n");
    0
}

/// The file and the line count of `head` and `tail`'s arguments.
pub fn parse_head_tail_args(cwd: &str, args: &[String]) -> (r: (Option<KPath>, usize))
    ensures
        head_tail_args(cwd@, arg_views(args@)) == (
            match r.0 {
                Some(p) => Some(p@),
                None => None,
            },
            r.1,
        ),
{
    let ghost views = arg_views(args@);
    let mut n: usize = 10;
    let mut path: Option<KPath> = None;
    let mut i: usize = 0;
    proof {
        reveal_strlit("-n");
    }
    while i < args.len()
        invariant
            i <= args@.len(),
            views == arg_views(args@),
            head_tail_args(cwd@, views) == scan_head_tail(
                cwd@,
                views,
                i as int,
                n,
                match path {
                    Some(p) => Some(p@),
                    None => None,
                },
            ),
        decreases args@.len() - i,
    {
        assert(views[i as int] == args@[i as int]@);
        let a = args[i].as_str();
        if str_equal(a, "-n") && i + 1 < args.len() {
            assert(views[i + 1] == args@[i + 1]@);
            match parse_decimal(args[i + 1].as_str()) {
                Some(num) => {
                    n = num;
                },
                None => {},
            }
            i = i + 2;
        } else {
            let ac = to_chars(a);
            if !(ac.len() > 0 && ac[0] == '-') {
                path = Some(resolve_path(cwd, a));
            }
            i = i + 1;
        }
    }
    (path, n)
}

/// Appends each of `ls[from..to]` followed by `\r\n`.
fn append_lines(out: &mut String, ls: &Vec<String>, from: usize, to: usize)
    requires
        from <= to <= ls@.len(),
    ensures
        final(out)@ == old(out)@ + lines_text(ls@.map_values(|l: String| l@).subrange(from as int, to as int)),
{
    let ghost views = ls@.map_values(|l: String| l@);
    let mut k: usize = from;
    while k < to
        invariant
            from <= k <= to <= ls@.len(),
            views == ls@.map_values(|l: String| l@),
            out@ == old(out)@ + lines_text(views.subrange(from as int, k as int)),
        decreases to - k,
    {
        out.append(ls[k].as_str());
        out.append("\r\n");
        proof {
            assert(views.subrange(from as int, k + 1).drop_last() =~= views.subrange(from as int, k as int));
            assert(out@ =~= old(out)@ + lines_text(views.subrange(from as int, k + 1)));
        }
        k = k + 1;
    }
}

/// Appends the chosen lines of `text`: the last `n` when `from_end`, else
/// the first `n`, each followed by `\r\n`.
pub fn append_chosen_lines(text: &str, n: usize, from_end: bool, out: &mut String)
    ensures
        final(out)@ == old(out)@ + chosen_lines_text(text@, n, from_end),
{
    let tc = to_chars(text);
    let ls = split_lines(&tc);
    let ghost lv = ls@.map_values(|l: String| l@);
    if from_end {
        let start = if ls.len() > n {
            ls.len() - n
        } else {
            0
        };
        append_lines(out, &ls, start, ls.len());
        proof {
            assert(lv.subrange(start as int, ls@.len() as int) =~= last_lines(lv, n));
        }
    } else {
        let to_show = if n < ls.len() {
            n
        } else {
            ls.len()
        };
        append_lines(out, &ls, 0, to_show);
        proof {
            assert(lv.subrange(0, to_show as int) =~= first_lines(lv, n));
        }
    }
}

/// Appends the `wc` line of `text`, which was decoded from `bytes` bytes,
/// under the name `name`.
pub fn append_wc_line(text: &str, bytes: usize, name: &str, out: &mut String)
    ensures
        final(out)@ == old(out)@ + wc_line(text@, bytes as nat, name@),
{
    let tc = to_chars(text);
    let lines_count = split_lines(&tc).len();
    let words_count = split_words(&tc, 0, tc.len()).len();
    proof {
        assert(tc@.subrange(0, tc@.len() as int) =~= tc@);
    }
    append_padded_decimal(out, lines_count, 8);
    out.append(" ");
    append_padded_decimal(out, words_count, 8);
    out.append(" ");
    append_padded_decimal(out, bytes, 8);
    out.append(" ");
    out.append(name);
    out.append("\r\n");
}

/// `head` and `tail`.
fn run_head_tail(args: &[String], ns: &mut Namespace, cwd: &str, out: &mut String, from_end: bool) -> (code: i32)
    requires
        old(ns).valid(),
    ensures
        final(ns).valid(),
        final(ns)@ == head_tail_run(old(ns)@, cwd@, arg_views(args@), from_end).0,
        final(out)@ == old(out)@ + head_tail_run(old(ns)@, cwd@, arg_views(args@), from_end).1,
        code == head_tail_run(old(ns)@, cwd@, arg_views(args@), from_end).2,
{
    let name = if from_end {
        "tail"
    } else {
        "head"
    };
    let (path, n) = parse_head_tail_args(cwd, args);
    match path {
        None => {
            out.append(name);
            out.append(": missing file operand\r\n");
            1
        },
        Some(p) => {
            proof {
                lemma_open_read_unchanged(ns@, p@);
            }
            let mut prefix = String::from_str(name);
            prefix.append(": ");
            match ns.open(&p, OpenFlags::READ()) {
                Ok(mut file) => {
                    let content = match read_to_end(ns, &mut file) {
                        Ok(c) => c,
                        Err(e) => {
                            append_error(out, prefix.as_str(), p.as_str(), ": ", e);
                            return 1;
                        },
                    };
                    let text = decode_lossy(content.as_slice());
                    append_chosen_lines(text.as_str(), n, from_end, out);
                    0
                },
                Err(e) => {
                    append_error(out, prefix.as_str(), p.as_str(), ": ", e);
                    1
                },
            }
        },
    }
}

pub fn run_head(args: &[String], ns: &mut Namespace, cwd: &str, out: &mut String) -> (code: i32)
    requires
        old(ns).valid(),
    ensures
        final(ns).valid(),
        final(ns)@ == head_tail_run(old(ns)@, cwd@, arg_views(args@), false).0,
        final(out)@ == old(out)@ + head_tail_run(old(ns)@, cwd@, arg_views(args@), false).1,
        code == head_tail_run(old(ns)@, cwd@, arg_views(args@), false).2,
{
    run_head_tail(args, ns, cwd, out, false)
}

pub fn run_tail(args: &[String], ns: &mut Namespace, cwd: &str, out: &mut String) -> (code: i32)
    requires
        old(ns).valid(),
    ensures
        final(ns).valid(),
        final(ns)@ == head_tail_run(old(ns)@, cwd@, arg_views(args@), true).0,
        final(out)@ == old(out)@ + head_tail_run(old(ns)@, cwd@, arg_views(args@), true).1,
        code == head_tail_run(old(ns)@, cwd@, arg_views(args@), true).2,
{
    run_head_tail(args, ns, cwd, out, true)
}

pub fn run_wc(args: &[String], ns: &mut Namespace, cwd: &str, out: &mut String) -> (code: i32)
    requires
        old(ns).valid(),
    ensures
        final(ns).valid(),
        final(ns)@ == wc_run(old(ns)@, cwd@, arg_views(args@)).0,
        final(out)@ == old(out)@ + wc_run(old(ns)@, cwd@, arg_views(args@)).1,
        code == wc_run(old(ns)@, cwd@, arg_views(args@)).2,
{
    if args.len() == 0 {
        out.append("wc: missing file operand\r\n");
        return 1;
    }
    let path = resolve_path(cwd, args[0].as_str());
    proof {
        lemma_open_read_unchanged(ns@, path@);
    }
    match ns.open(&path, OpenFlags::READ()) {
        Ok(mut file) => {
            let content = match read_to_end(ns, &mut file) {
                Ok(c) => c,
                Err(e) => {
                    append_error(out, "wc: ", path.as_str(), ": ", e);
                    return 1;
                },
            };
            let text = decode_lossy(content.as_slice());
            append_wc_line(text.as_str(), content.len(), args[0].as_str(), out);
            0
        },
        Err(e) => {
            append_error(out, "wc: ", path.as_str(), ": ", e);
            1
        },
    }
}

} // verus!

verus! {

/// `echo word...`: the words joined by spaces.
pub fn echo(ctx: &mut crate::shell::executor::BuiltinContext) -> (code: i32)
    ensures
        (*final(ctx).ns)@ == (*old(ctx).ns)@,
        (*final(ctx).output)@ == (*old(ctx).output)@ + echo_run((*old(ctx).ns)@, arg_views(old(ctx).args@)).1,
        code == 0,
        (*final(ctx).cwd)@ == (*old(ctx).cwd)@,
        final(ctx).args@ == old(ctx).args@,
{
    run_echo(ctx.args, ctx.output)
}

/// `head [-n N] file`: the first lines of a file.
pub fn head(ctx: &mut crate::shell::executor::BuiltinContext) -> (code: i32)
    requires
        (*old(ctx).ns).valid(),
    ensures
        (*final(ctx).ns).valid(),
        (*final(ctx).ns)@ == head_tail_run((*old(ctx).ns)@, (*old(ctx).cwd)@, arg_views(old(ctx).args@), false).0,
        (*final(ctx).output)@ == (*old(ctx).output)@ + head_tail_run((*old(ctx).ns)@, (*old(ctx).cwd)@, arg_views(old(ctx).args@), false).1,
        code == head_tail_run((*old(ctx).ns)@, (*old(ctx).cwd)@, arg_views(old(ctx).args@), false).2,
        (*final(ctx).cwd)@ == (*old(ctx).cwd)@,
        final(ctx).args@ == old(ctx).args@,
{
    run_head(ctx.args, ctx.ns, ctx.cwd.as_str(), ctx.output)
}

/// `tail [-n N] file`: the last lines of a file.
pub fn tail(ctx: &mut crate::shell::executor::BuiltinContext) -> (code: i32)
    requires
        (*old(ctx).ns).valid(),
    ensures
        (*final(ctx).ns).valid(),
        (*final(ctx).ns)@ == head_tail_run((*old(ctx).ns)@, (*old(ctx).cwd)@, arg_views(old(ctx).args@), true).0,
        (*final(ctx).output)@ == (*old(ctx).output)@ + head_tail_run((*old(ctx).ns)@, (*old(ctx).cwd)@, arg_views(old(ctx).args@), true).1,
        code == head_tail_run((*old(ctx).ns)@, (*old(ctx).cwd)@, arg_views(old(ctx).args@), true).2,
        (*final(ctx).cwd)@ == (*old(ctx).cwd)@,
        final(ctx).args@ == old(ctx).args@,
{
    run_tail(ctx.args, ctx.ns, ctx.cwd.as_str(), ctx.output)
}

/// `wc file`: the counts of lines, words and bytes.
pub fn wc(ctx: &mut crate::shell::executor::BuiltinContext) -> (code: i32)
    requires
        (*old(ctx).ns).valid(),
    ensures
        (*final(ctx).ns).valid(),
        (*final(ctx).ns)@ == wc_run((*old(ctx).ns)@, (*old(ctx).cwd)@, arg_views(old(ctx).args@)).0,
        (*final(ctx).output)@ == (*old(ctx).output)@ + wc_run((*old(ctx).ns)@, (*old(ctx).cwd)@, arg_views(old(ctx).args@)).1,
        code == wc_run((*old(ctx).ns)@, (*old(ctx).cwd)@, arg_views(old(ctx).args@)).2,
        (*final(ctx).cwd)@ == (*old(ctx).cwd)@,
        final(ctx).args@ == old(ctx).args@,
{
    run_wc(ctx.args, ctx.ns, ctx.cwd.as_str(), ctx.output)
}

} // verus!
