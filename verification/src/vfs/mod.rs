//! The virtual file system: its vocabulary and traits, and the mount
//! namespace.
pub mod namespace;
pub mod traits;

pub use namespace::Namespace;
pub use traits::{
    DirEntry, FileHandle, FileSystem, FsError, KPath, Metadata, NodeType, OpenFlags, Result,
    SeekFrom,
};
