//! Replies of a server.

use vstd::prelude::*;

verus! {

/// The format that a server gives to a verbatim string.
#[derive(Debug, Clone, Copy, PartialEq, Eq, Structural)]
pub enum VerbatimFormat {
    /// Plain text.
    Text,
    /// Markdown.
    Markdown,
}

/// A reply of a server, as far as the cluster's topology is read from it.
#[derive(Debug)]
pub enum Value {
    /// No value.
    Nil,
    /// An integer.
    Int(i64),
    /// A string of bytes.
    BulkString(Vec<u8>),
    /// A list of values.
    Array(Vec<Value>),
    /// A short text.
    SimpleString(String),
    /// The status `OK`.
    Okay,
    /// Pairs of a key and a value.
    Pairs(Vec<(Value, Value)>),
    /// A text with its format.
    VerbatimString { format: VerbatimFormat, text: String },
    /// A value of any other kind: none of them tells anything about the topology.
    Other,
}

/// Why a reply could not be taken.
#[derive(Debug)]
pub struct RedisError {
    pub detail: String,
}

/// A value, or the reason why there is none.
pub type RedisResult<T> = Result<T, RedisError>;

} // verus!
