//! Expands `match e { Enum::[A, #[attr] B, C](x) => body }` into an ordinary
//! `match` with one arm per listed variant, all sharing the binding and body.
//!
//! The input and output are flat token sequences ([`Tok`]): group delimiters
//! appear as separate open and close tokens.

pub mod token;
pub mod grammar;
pub mod parse;
pub mod expand;
mod syn_parse;

pub use token::{Delim, Tok, TokV};
pub use parse::{parse_args, Args, Case, Expected, ParseError};
pub use expand::{all_the_same, expand_args};
