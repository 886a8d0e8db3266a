//! A template engine for status-line format strings: the syntax tree of a
//! template, the variables it names, rendering against resolved values, and
//! the lookup of a display symbol for a remote repository host.
pub mod names;
pub mod model;
pub mod git_branch;
pub mod style;
pub mod render;
pub mod terminal;
pub mod parser;
