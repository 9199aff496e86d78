//! What can go wrong.
use std::str::Utf8Error;
use vstd::prelude::*;

verus! {

/// `std::str::Utf8Error`, which says why bytes are not UTF-8. Nothing is
/// known of what it holds.
#[verifier::external_type_specification]
#[verifier::external_body]
pub struct ExUtf8Error(Utf8Error);

/// An error of the index.
#[derive(Debug)]
pub enum Error {
    /// Bytes that were read are not what was written: a key is too short or
    /// lacks its delimiter.
    DeserializationError {},
    /// The term of a key is not UTF-8.
    Utf8Error(Utf8Error),
}

} // verus!
