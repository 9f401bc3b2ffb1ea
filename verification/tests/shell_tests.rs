use kernel::shell::executor::{Builtin, BuiltinContext, Executor};
use kernel::builtins::fs as fs_cmds;
use kernel::fs::memfs::MemFs;
use kernel::vfs::Namespace;
use kernel::shell::parse_line;
use kernel::builtins::text as text_cmds;
use kernel::vfs::{FsError, KPath, NodeType};

fn shell() -> (Executor, Namespace, String) {
    let mut e = Executor::new();
    for (name, b) in [
        ("pwd", Builtin::Pwd),
        ("ls", Builtin::Ls),
        ("cat", Builtin::Cat),
        ("mkdir", Builtin::Mkdir),
        ("rm", Builtin::Rm),
        ("touch", Builtin::Touch),
        ("cp", Builtin::Cp),
        ("mv", Builtin::Mv),
        ("echo", Builtin::Echo),
        ("head", Builtin::Head),
        ("tail", Builtin::Tail),
        ("wc", Builtin::Wc),
    ] {
        e.register(name, b);
    }
    let mut ns = Namespace::new();
    ns.mount("/", MemFs::new());
    (e, ns, String::from("/"))
}

fn run(e: &Executor, ns: &mut Namespace, cwd: &mut String, line: &str) -> (i32, String) {
    let cmd = parse_line(line).unwrap();
    e.execute(&cmd, ns, cwd)
}

#[test]
fn unknown_command_is_reported() {
    let (e, mut ns, mut cwd) = shell();
    assert_eq!(run(&e, &mut ns, &mut cwd, "frobnicate x"), (1, String::from("frobnicate: command not found\n")));
}

#[test]
fn pwd_and_echo() {
    let (e, mut ns, mut cwd) = shell();
    assert_eq!(run(&e, &mut ns, &mut cwd, "pwd"), (0, String::from("/\r\r\n")));
    assert_eq!(run(&e, &mut ns, &mut cwd, "echo  hello   world"), (0, String::from("hello world\r\n")));
    assert_eq!(run(&e, &mut ns, &mut cwd, "echo"), (0, String::from("\r\n")));
}

#[test]
fn mkdir_touch_ls() {
    let (e, mut ns, mut cwd) = shell();
    assert_eq!(run(&e, &mut ns, &mut cwd, "mkdir docs bin"), (0, String::new()));
    assert_eq!(run(&e, &mut ns, &mut cwd, "touch notes.txt"), (0, String::new()));
    assert_eq!(run(&e, &mut ns, &mut cwd, "ls"), (0, String::from("bin/\r\ndocs/\r\nnotes.txt\r\n")));
    assert_eq!(run(&e, &mut ns, &mut cwd, "ls /docs"), (0, String::new()));
    assert_eq!(
        run(&e, &mut ns, &mut cwd, "ls /nope"),
        (1, String::from("ls: /nope: No such file or directory\r\n"))
    );
    assert_eq!(
        run(&e, &mut ns, &mut cwd, "mkdir docs"),
        (1, String::from("mkdir: cannot create directory '/docs': File exists\r\n"))
    );
    assert_eq!(run(&e, &mut ns, &mut cwd, "mkdir"), (1, String::from("mkdir: missing operand\r\n")));
    assert_eq!(run(&e, &mut ns, &mut cwd, "touch"), (1, String::from("touch: missing file operand\r\n")));
    assert_eq!(
        run(&e, &mut ns, &mut cwd, "touch docs"),
        (1, String::from("touch: cannot touch '/docs': Is a directory\r\n"))
    );
}

#[test]
fn cat_cp_mv_rm() {
    let (e, mut ns, mut cwd) = shell();
    run(&e, &mut ns, &mut cwd, "touch a");
    {
        let mut f = ns.open(&KPath::new("/a"), kernel::vfs::OpenFlags::WRITE()).unwrap();
        ns.write(&mut f, b"line1\nline2\n").unwrap();
    }
    assert_eq!(run(&e, &mut ns, &mut cwd, "cat a"), (0, String::from("line1\nline2\n")));
    assert_eq!(run(&e, &mut ns, &mut cwd, "cp a b"), (0, String::new()));
    assert_eq!(run(&e, &mut ns, &mut cwd, "cat /b"), (0, String::from("line1\nline2\n")));
    assert_eq!(run(&e, &mut ns, &mut cwd, "cat"), (1, String::from("cat: missing operand\r\n")));
    assert_eq!(
        run(&e, &mut ns, &mut cwd, "cat missing a"),
        (1, String::from("cat: /missing: No such file or directory\r\nline1\nline2\n"))
    );
    assert_eq!(run(&e, &mut ns, &mut cwd, "cp a"), (1, String::from("cp: missing destination file operand\r\n")));
    assert_eq!(
        run(&e, &mut ns, &mut cwd, "cp zz b"),
        (1, String::from("cp: cannot stat '/zz': No such file or directory\r\n"))
    );
    run(&e, &mut ns, &mut cwd, "mkdir d");
    assert_eq!(
        run(&e, &mut ns, &mut cwd, "cp a d"),
        (1, String::from("cp: cannot create '/d': Is a directory\r\n"))
    );
    assert_eq!(run(&e, &mut ns, &mut cwd, "mv b d/c"), (0, String::new()));
    assert_eq!(run(&e, &mut ns, &mut cwd, "cat d/c"), (0, String::from("line1\nline2\n")));
    assert_eq!(
        run(&e, &mut ns, &mut cwd, "mv b x"),
        (1, String::from("mv: cannot move '/b': No such file or directory\r\n"))
    );
    assert_eq!(run(&e, &mut ns, &mut cwd, "mv b"), (1, String::from("mv: missing destination file operand\r\n")));
    assert_eq!(
        run(&e, &mut ns, &mut cwd, "rm d"),
        (1, String::from("rm: cannot remove '/d': Directory not empty\r\n"))
    );
    assert_eq!(run(&e, &mut ns, &mut cwd, "rm d/c d"), (0, String::new()));
    assert_eq!(run(&e, &mut ns, &mut cwd, "rm"), (1, String::from("rm: missing operand\r\n")));
}

#[test]
fn cat_decodes_invalid_utf8_with_replacement() {
    let (e, mut ns, mut cwd) = shell();
    run(&e, &mut ns, &mut cwd, "touch bin");
    {
        let mut f = ns.open(&KPath::new("/bin"), kernel::vfs::OpenFlags::WRITE()).unwrap();
        ns.write(&mut f, &[b'o', b'k', 0xff]).unwrap();
    }
    assert_eq!(run(&e, &mut ns, &mut cwd, "cat bin"), (0, String::from("ok\u{FFFD}")));
}

#[test]
fn head_tail_wc() {
    let (e, mut ns, mut cwd) = shell();
    run(&e, &mut ns, &mut cwd, "touch t");
    {
        let mut f = ns.open(&KPath::new("/t"), kernel::vfs::OpenFlags::WRITE()).unwrap();
        ns.write(&mut f, b"one two\r\nthree\nfour five six\n").unwrap();
    }
    assert_eq!(run(&e, &mut ns, &mut cwd, "head -n 2 t"), (0, String::from("one two\r\nthree\r\n")));
    assert_eq!(run(&e, &mut ns, &mut cwd, "tail -n 1 t"), (0, String::from("four five six\r\n")));
    assert_eq!(
        run(&e, &mut ns, &mut cwd, "tail t"),
        (0, String::from("one two\r\nthree\r\nfour five six\r\n"))
    );
    assert_eq!(run(&e, &mut ns, &mut cwd, "head -n x t"), (0, String::from("one two\r\nthree\r\nfour five six\r\n")));
    assert_eq!(run(&e, &mut ns, &mut cwd, "head -n 0 t"), (0, String::new()));
    assert_eq!(run(&e, &mut ns, &mut cwd, "head"), (1, String::from("head: missing file operand\r\n")));
    assert_eq!(run(&e, &mut ns, &mut cwd, "tail -n 3"), (1, String::from("tail: missing file operand\r\n")));
    assert_eq!(
        run(&e, &mut ns, &mut cwd, "head nofile"),
        (1, String::from("head: /nofile: No such file or directory\r\n"))
    );
    assert_eq!(
        run(&e, &mut ns, &mut cwd, "wc t"),
        (0, String::from("       3        6       29 t\r\n"))
    );
    assert_eq!(run(&e, &mut ns, &mut cwd, "wc"), (1, String::from("wc: missing file operand\r\n")));
    assert_eq!(
        run(&e, &mut ns, &mut cwd, "wc /"),
        (1, String::from("wc: /: Is a directory\r\n"))
    );
}

#[test]
fn builtins_called_through_context() {
    let mut ns = Namespace::new();
    ns.mount("/", MemFs::new());
    let mut cwd = String::from("/");
    let mut out = String::new();
    let args = vec![String::from("sub")];
    {
        let mut ctx = BuiltinContext { args: &args, ns: &mut ns, cwd: &mut cwd, output: &mut out };
        assert_eq!(fs_cmds::mkdir(&mut ctx), 0);
        assert_eq!(fs_cmds::ls(&mut ctx), 0);
        assert_eq!(text_cmds::echo(&mut ctx), 0);
        assert_eq!(fs_cmds::pwd(&mut ctx), 0);
    }
    assert_eq!(out, "sub\r\n/\r\r\n");
    assert_eq!(ns.stat(&KPath::new("/sub")).unwrap().node_type, NodeType::Dir);
}

#[test]
fn error_messages_for_every_error() {
    assert_eq!(fs_cmds::fs_error_str(FsError::NotFound), "No such file or directory");
    assert_eq!(fs_cmds::fs_error_str(FsError::AlreadyExists), "File exists");
    assert_eq!(fs_cmds::fs_error_str(FsError::NotDir), "Not a directory");
    assert_eq!(fs_cmds::fs_error_str(FsError::IsDir), "Is a directory");
    assert_eq!(fs_cmds::fs_error_str(FsError::PermissionDenied), "Permission denied");
    assert_eq!(fs_cmds::fs_error_str(FsError::InvalidPath), "Invalid path");
    assert_eq!(fs_cmds::fs_error_str(FsError::NotEmpty), "Directory not empty");
    assert_eq!(fs_cmds::fs_error_str(FsError::IoError), "I/O error");
    assert_eq!(fs_cmds::fs_error_str(FsError::BadFileDescriptor), "Bad file descriptor");
    assert_eq!(fs_cmds::fs_error_str(FsError::NotImplemented), "Not implemented");
}

#[test]
fn register_replaces_builtin() {
    let (mut e, mut ns, mut cwd) = shell();
    e.register("ls", Builtin::Pwd);
    assert_eq!(run(&e, &mut ns, &mut cwd, "ls"), (0, String::from("/\r\r\n")));
}

#[test]
fn head_tail_args_parse() {
    let args: Vec<String> = vec!["-n".into(), "+3".into(), "-v".into(), "a".into(), "/b".into()];
    let (path, n) = text_cmds::parse_head_tail_args("/home/", &args);
    assert_eq!(path.unwrap().as_str(), "/b");
    assert_eq!(n, 3);
    let args: Vec<String> = vec!["x".into(), "-n".into()];
    let (path, n) = text_cmds::parse_head_tail_args("/w", &args);
    assert_eq!(path.unwrap().as_str(), "/w/x");
    assert_eq!(n, 10);
}

#[test]
fn lines_keep_a_bare_carriage_return() {
    let (e, mut ns, mut cwd) = shell();
    run(&e, &mut ns, &mut cwd, "touch r");
    {
        let mut f = ns.open(&KPath::new("/r"), kernel::vfs::OpenFlags::WRITE()).unwrap();
        ns.write(&mut f, b"foo\r\nbar\n\nbaz\r").unwrap();
    }
    assert_eq!(run(&e, &mut ns, &mut cwd, "head r"), (0, String::from("foo\r\nbar\r\n\r\nbaz\r\r\n")));
    assert_eq!(run(&e, &mut ns, &mut cwd, "wc r"), (0, String::from("       4        3       14 r\r\n")));
}

#[test]
fn unicode_whitespace_separates_words() {
    let cmd = parse_line("\u{3000}echo\u{85}a\u{a0}b\u{2029}").unwrap();
    assert_eq!(cmd.cmd, "echo");
    assert_eq!(cmd.args, vec!["a", "b"]);
}

#[test]
fn chosen_lines_of_decoded_text() {
    let text = "one\ntwo\r\nthree\nfour";
    let mut out = String::from(">");
    text_cmds::append_chosen_lines(text, 2, false, &mut out);
    assert_eq!(out, ">one\r\ntwo\r\n");
    let mut out = String::new();
    text_cmds::append_chosen_lines(text, 2, true, &mut out);
    assert_eq!(out, "three\r\nfour\r\n");
    let mut out = String::new();
    text_cmds::append_chosen_lines(text, 10, true, &mut out);
    assert_eq!(out, "one\r\ntwo\r\nthree\r\nfour\r\n");
    let mut out = String::new();
    text_cmds::append_chosen_lines(text, 0, false, &mut out);
    assert_eq!(out, "");
}

#[test]
fn wc_line_of_decoded_text() {
    let mut out = String::new();
    text_cmds::append_wc_line("hello world\nbye\n", 16, "f.txt", &mut out);
    assert_eq!(out, "       2        3       16 f.txt\r\n");
    let mut out = String::new();
    text_cmds::append_wc_line("", 0, "e", &mut out);
    assert_eq!(out, "       0        0        0 e\r\n");
}
