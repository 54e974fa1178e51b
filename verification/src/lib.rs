//! A JSON superset: comments, trailing commas, keys without quotes, strings in
//! single, double or backtick quotes, and values that refer to other values of
//! the same document by their dotted path.

pub mod builder;
pub mod context;
pub mod data;
pub mod error;
pub mod myson;
pub mod parser;
pub mod resolver;
pub mod text;
pub mod tokenizer;
pub mod value;
pub mod zen;

pub use crate::data::Data;
pub use crate::error::Error;
pub use crate::myson::Myson;
pub use crate::parser::parse;
pub use crate::value::Value;
pub use crate::zen::Zen;
