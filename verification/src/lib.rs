//! An ACON-parsing library, verified.
//!
//! ACON (Awk-Compatible Object Notation) is a line-oriented text format: the
//! key is the first word on a line, the value the remaining words. `{` and
//! `[` open tables and arrays, `}` and `]` close them, `$` closes all open
//! ones and `#` starts a comment. Values are retrieved with dot-separated
//! paths.
pub mod text;
pub mod tree;
pub mod acon;
pub mod parse;
pub mod serialize;

pub use tree::{Acon, Array, Table, Value};
pub use acon::AconError;
pub mod laws;
pub mod roundtrip;
pub mod text_laws;
