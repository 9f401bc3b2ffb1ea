//! An in-memory kernel: paths, an in-memory file system, a mount
//! namespace, a command-line parser and the shell's builtin commands.
pub mod builtin_laws;
pub mod builtins;
pub mod fs;
pub mod kernel;
pub mod laws;
pub mod shell;
pub mod strmap;
pub mod strs;
pub mod vfs;
