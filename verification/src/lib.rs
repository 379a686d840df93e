//! A parser for TOML-style configuration text.
//!
//! The text is scanned into values, the values are assembled into a tree of
//! tables, and the finished tree answers dotted-path queries. Every function
//! carries a contract over the mathematical model of its data
//! ([`value::ValueView`] for trees, sequences of characters for text).

pub mod builder;
pub mod builder_laws;
pub mod document;
pub mod document_laws;
pub mod flat;
pub mod frame_laws;
pub mod grammar;
pub mod lookup;
pub mod parser;
pub mod path;
pub mod path_laws;
pub mod reader;
pub mod scanner;
pub mod text;
pub mod value;
pub mod wf_laws;

pub use builder::{ValueBuilder, Visitor};
pub use document::{parse_from_buffer, parse_from_bytes, ErrorKind, ParseError};
pub use flat::TOMLVisitor;
pub use lookup::PathElement;
pub use reader::MemReader;
pub use scanner::Parser;
pub use value::{have_equiv_types, DecimalLiteral, Table, Value};
