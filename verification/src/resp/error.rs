//! Errors of the RESP reader and writer.

use vstd::prelude::*;

verus! {

/// What can go wrong while reading or writing RESP text.
#[derive(Debug)]
pub enum RespError {
    Message(String),
    Eof,
    Syntax,
    ExpectedCRLF,
    ExpectedArray,
    ExpectedInteger,
    ExpectedSimpleString,
    ExpectedBulkString,
    ExpectedBoolean,
    TrailingCharacters,
    ExpectedNull,
}

} // verus!
