//! The core of `rsh`, the RustOS shell: line editing, variable expansion,
//! tokenising, path handling and the built-in commands.
//!
//! Nothing here performs input or output.  Text for the terminal is collected
//! in an [`io::StdoutWriter`]; everything else the shell wants from the kernel
//! is returned as a [`machine::Action`], and the answer is handed back to
//! [`shell::Shell::step`] as a [`machine::Event`].
pub mod builtins;
pub mod bytes;
pub mod command_laws;
pub mod dirents;
pub mod editor;
pub mod expand;
pub mod history;
pub mod io;
pub mod laws;
pub mod machine;
pub mod model;
pub mod path;
pub mod prompt;
pub mod shell;
pub mod sys;
pub mod vars;
pub mod words;

