//! The shell: parsing command lines and dispatching them to builtins.
pub mod executor;
pub mod parser;

pub use executor::{BuiltinContext, Executor};
pub use parser::{parse_line, Command};
