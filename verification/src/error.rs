//! What can go wrong while an info string is read.

use crate::field::Field;
use vstd::prelude::*;

verus! {

/// The reason why bytes were not accepted.
#[derive(Clone, Copy, Debug, PartialEq, Eq, Structural)]
pub enum Error {
    /// The bytes of a key are empty or hold the delimiter.
    InvalidKey,
    /// The bytes of a value hold the delimiter.
    InvalidValue,
    /// The buffer is no sequence of key/value pairs: a key has no value,
    /// or a key is empty.
    MalformedInfoString,
    /// The info map of an arena lacks a field that every arena has.
    MissingField(Field),
    /// The value of `map` is no name of a map file.
    InvalidMapName,
    /// The value of the field is no decimal number, or too large a one.
    InvalidNumber(Field),
}

} // verus!
