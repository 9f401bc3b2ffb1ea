# kernel

A small in-memory kernel and shell, verified with Verus.

`src/` is the verified library:

- `strs`, `strmap`: character-level string operations (trimming, searching,
  splitting into words and lines, decimal numbers) and a string-keyed map kept
  in ascending key order, each with its specification.
- `vfs`: paths (`KPath`), the file system vocabulary and traits, and the mount
  `Namespace`, which routes a path to the file system with the longest
  matching mount point.
- `fs::memfs`: `MemFs`, an in-memory file system, and its open files,
  specified against a model that maps absolute paths to files and
  directories.
- `shell`: the command-line parser and the registry that dispatches a parsed
  command to a builtin.
- `builtins`: `pwd`, `ls`, `cat`, `mkdir`, `rm`, `touch`, `cp`, `mv`, `echo`,
  `head`, `tail` and `wc`, each specified by what it writes and what it does
  to the namespace.
- `kernel`: the kernel's state and the decisions of its entry points.
- `laws`: properties that span operations, such as what a read gives back of
  a write, that `cp` copies, that `unlink` undoes a creation, and that every
  operation keeps the nodes a tree on plain paths.

`app/` is the terminal host: it boots the kernel, forwards key presses and
ticks it. `tests/` holds the tests.
