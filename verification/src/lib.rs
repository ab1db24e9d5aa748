//! A parser for nurse-rostering instances in the section-delimited text
//! format of the Curtois 2014 benchmark set.
//!
//! The entry point is [`parse_curtois2014`], which takes the text of a file
//! and returns the instance it describes or the first fault in it.

pub mod error;
pub mod idmap;
pub mod laws;
pub mod model;
pub mod number;
pub mod parser;
pub mod reader;
pub mod rows;
pub mod sections;
pub mod text;

pub use error::{ErrorKind, ParseError, Section};
pub use idmap::IdMap;
pub use model::{Curtois2014Instance, Request, Requirement, Shift, Staff};
pub use parser::parse_curtois2014;
