//! Incremental assembly of token streams, with an explicit stack of open
//! bracket scopes and raw text that is split on bracket characters.
pub mod split;
pub mod tokens;
pub mod builder;
pub mod extend;
pub mod laws;

pub use builder::{BuildError, TokenBuilder};
pub use extend::TokenBuilderExtend;
pub use split::{Bracket, Delim, bracket_of, split_raw};
