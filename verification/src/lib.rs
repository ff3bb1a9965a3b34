//! Codec and typed views for Quake 3 info strings.
//!
//! An info string is a byte buffer of key/value pairs separated by `\`
//! backslashes. [`info`] holds the ordered key/value map that such a
//! buffer stands for, with its keys and values; [`arena`] holds the typed
//! view of the info map that describes an arena (a level).
//!
//! What the two do is stated in [`codec`] and [`projection`], over byte
//! sequences and pairs of them, together with what holds of it: that a
//! map is read back from the buffer it was written to, that a key keeps
//! its place when it gets a new value, that no key is lost when an arena
//! is read. [`text`] and [`number`] hold the byte strings and numbers that
//! both are made of, [`field`] the well-known keys of an arena, [`error`]
//! the reasons why bytes are not accepted, and [`ordered`] the ordered
//! hash collections that hold the pairs.

pub mod arena;
pub mod codec;
pub mod error;
pub mod field;
pub mod info;
pub mod number;
pub mod ordered;
pub mod projection;
pub mod text;
