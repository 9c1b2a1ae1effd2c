//! A compiler from JSON Schema documents to validators, and the evaluation of
//! those validators on JSON values.

pub mod compile;
pub mod digits;
pub mod evaluate;
pub mod keyword;
pub mod laws;
pub mod node;
pub mod number;
pub mod pattern;
pub mod pointer;
pub mod resolver;
pub mod rule;
pub mod schema;
pub mod validator;
pub mod value;

pub use crate::validator::generate_validator;
pub use crate::validator::generate_validator_with;
pub use crate::validator::CompiledSchema;
pub use crate::validator::Validator;
pub use crate::value::Value;
