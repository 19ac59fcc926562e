//! Claim/When talk protocol: template parsing, values and the runtime database.

pub mod database;
pub mod handle;
pub mod json;
pub mod lexicon;
pub mod macros;
pub mod strings;
pub mod query;
pub mod rtvm;
pub mod template;
pub mod value;

