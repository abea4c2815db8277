//! Decoder for a compact, self-delimiting serialization format used for
//! peer-to-peer metadata: a single-pass recursive-descent reader that
//! turns a byte buffer into a tree of integers, byte strings, lists and
//! dictionaries, reporting a position-tagged error on malformed input.
//!
//! The wire grammar is stated as a mathematical function over the byte
//! sequence in `model`, and `Parser::parse` is proved to return exactly
//! what that function says, for every buffer.

use vstd::prelude::*;

mod error;
mod model;
mod parser;
mod value;

pub use error::Error;
pub use error::ErrorCode;
pub use parser::Parser;
pub use parser::DEFAULT_MAX_DEPTH;
pub use value::BencodeValue;
