//! Reader and writer for the ConfigObj configuration file format.
//!
//! The format is INI-like, with a few additions: sections nest by repeating
//! the brackets (`[[child]]`), values may be comma-separated lists, and
//! comments are attached to the entries they precede so that rewriting a file
//! leaves it looking the way its author wrote it.

pub mod text;
pub mod error;
pub mod value;
pub mod section;
pub mod parse;
pub mod reader;
pub mod write;
pub mod config;
pub mod laws;
pub mod rewrite;
pub mod whole;

pub use error::{Error, ErrorKind, ParseError};
pub use section::{Comments, Section};
pub use value::{NotABool, ParseValueError, Value, WrongShape, IntoValue};
pub use config::{Builder, ConfigObj, IntoLines};
