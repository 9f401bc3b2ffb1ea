//! The shell's builtin registry and its dispatch of a parsed command.
use vstd::prelude::*;

use crate::builtins::fs::{
    arg_views, cat_run, cp_run, ls_run, mkdir_run, mv_run, pwd_run, rm_run, run_cat, run_cp,
    run_ls, run_mkdir, run_mv, run_pwd, run_rm, run_touch, touch_run,
};
use crate::vfs::namespace::{Namespace, NsView};
use crate::shell::parser::Command;
use crate::strmap::StrMap;
use crate::builtins::text::{echo_run, head_tail_run, run_echo, run_head, run_tail, run_wc, wc_run};

verus! {

/// What a builtin command works with: its arguments, the namespace, the
/// working directory and the text it writes.
pub struct BuiltinContext<'a> {
    pub args: &'a [String],
    pub ns: &'a mut Namespace,
    pub cwd: &'a mut String,
    pub output: &'a mut String,
}

/// The builtin commands that can be registered.
#[derive(Debug, Clone, Copy, PartialEq, Eq, Structural)]
pub enum Builtin {
    Pwd,
    Ls,
    Cat,
    Mkdir,
    Rm,
    Touch,
    Cp,
    Mv,
    Echo,
    Head,
    Tail,
    Wc,
}

/// A builtin as the registry holds it.
pub type BuiltinFn = Builtin;

impl View for Builtin {
    type V = Builtin;

    open spec fn view(&self) -> Builtin {
        *self
    }
}

/// The namespace, the text and the exit code of running a builtin.
pub open spec fn builtin_run(b: Builtin, ns: NsView, cwd: Seq<char>, args: Seq<Seq<char>>) -> (
    NsView,
    Seq<char>,
    i32,
) {
    match b {
        Builtin::Pwd => pwd_run(ns, cwd),
        Builtin::Ls => ls_run(ns, cwd, args),
        Builtin::Cat => cat_run(ns, cwd, args),
        Builtin::Mkdir => mkdir_run(ns, cwd, args),
        Builtin::Rm => rm_run(ns, cwd, args),
        Builtin::Touch => touch_run(ns, cwd, args),
        Builtin::Cp => cp_run(ns, cwd, args),
        Builtin::Mv => mv_run(ns, cwd, args),
        Builtin::Echo => echo_run(ns, args),
        Builtin::Head => head_tail_run(ns, cwd, args, false),
        Builtin::Tail => head_tail_run(ns, cwd, args, true),
        Builtin::Wc => wc_run(ns, cwd, args),
    }
}

/// Runs a builtin, appending what it writes to `out`.
pub fn run_builtin(b: Builtin, args: &[String], ns: &mut Namespace, cwd: &str, out: &mut String) -> (code: i32)
    requires
        old(ns).valid(),
    ensures
        final(ns).valid(),
        final(ns)@ == builtin_run(b, old(ns)@, cwd@, arg_views(args@)).0,
        final(out)@ == old(out)@ + builtin_run(b, old(ns)@, cwd@, arg_views(args@)).1,
        code == builtin_run(b, old(ns)@, cwd@, arg_views(args@)).2,
{
    match b {
        Builtin::Pwd => run_pwd(cwd, out),
        Builtin::Ls => run_ls(args, ns, cwd, out),
        Builtin::Cat => run_cat(args, ns, cwd, out),
        Builtin::Mkdir => run_mkdir(args, ns, cwd, out),
        Builtin::Rm => run_rm(args, ns, cwd, out),
        Builtin::Touch => run_touch(args, ns, cwd, out),
        Builtin::Cp => run_cp(args, ns, cwd, out),
        Builtin::Mv => run_mv(args, ns, cwd, out),
        Builtin::Echo => run_echo(args, out),
        Builtin::Head => run_head(args, ns, cwd, out),
        Builtin::Tail => run_tail(args, ns, cwd, out),
        Builtin::Wc => run_wc(args, ns, cwd, out),
    }
}

/// The registry of builtins by name.
pub struct Executor {
    builtins: StrMap<Builtin>,
}

impl View for Executor {
    type V = Map<Seq<char>, Builtin>;

    closed spec fn view(&self) -> Map<Seq<char>, Builtin> {
        self.builtins@
    }
}

impl Executor {
    pub closed spec fn wf(&self) -> bool {
        self.builtins.wf()
    }

    pub fn new() -> (e: Self)
        ensures
            e.wf(),
            e@ == Map::<Seq<char>, Builtin>::empty(),
    {
        Executor { builtins: StrMap::new() }
    }

    /// Registers `func` under `name`, replacing any builtin of that name.
    pub fn register(&mut self, name: &str, func: BuiltinFn)
        requires
            old(self).wf(),
        ensures
            final(self).wf(),
            final(self)@ == old(self)@.insert(name@, func),
    {
        self.builtins.insert(String::from_str(name), func);
    }

    /// Runs a command: the registered builtin of its name, with its
    /// arguments, giving its exit code and what it wrote; an unknown name
    /// gives 1 and `<name>: command not found\n`.
    pub fn execute(&self, cmd: &Command, ns: &mut Namespace, cwd: &mut String) -> (r: (i32, String))
        requires
            self.wf(),
            old(ns).valid(),
        ensures
            final(ns).valid(),
            final(cwd)@ == old(cwd)@,
            self@.contains_key(cmd@.cmd) ==> {
                let o = builtin_run(self@[cmd@.cmd], old(ns)@, old(cwd)@, cmd@.args);
                &&& final(ns)@ == o.0
                &&& r.1@ == o.1
                &&& r.0 == o.2
            },
            !self@.contains_key(cmd@.cmd) ==> {
                &&& final(ns)@ == old(ns)@
                &&& r.0 == 1
                &&& r.1@ == cmd@.cmd + ": command not found\n"@
            },
    {
        let mut output = String::new();
        match self.builtins.get(cmd.cmd.as_str()) {
            Some(b) => {
                let code = run_builtin(*b, cmd.args.as_slice(), ns, cwd.as_str(), &mut output);
                assert(output@ =~= Seq::<char>::empty() + builtin_run(*b, old(ns)@, old(cwd)@, cmd@.args).1);
                (code, output)
            },
            None => {
                output.append(cmd.cmd.as_str());
                output.append(": command not found\n");
                (1, output)
            },
        }
    }
}

} // verus!
