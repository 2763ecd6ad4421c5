//! Readers and writers for the file formats used by first-party Nintendo EAD/EPD
//! titles: SARC archives, Yaz0 compression, AAMP name hashes and BYML node
//! types, with their byte layouts stated as specifications.
use vstd::prelude::*;

pub mod aamp;
pub mod byml;
pub mod util;
pub mod yaz0;
pub mod sarc;
pub mod types;
pub mod yaml;

verus! {

/// Endianness of a binary document.
///
/// Generally in the game ROM, big endian is used for Wii U and little endian
/// is used for Switch.
#[derive(Debug, Clone, Copy, PartialEq, Eq, Structural)]
pub enum Endian {
    /// Big Endian (Wii U); stored as the byte order mark `FE FF`.
    Big,
    /// Little Endian (Switch); stored as the byte order mark `FF FE`.
    Little,
}

/// The error that `std::str::from_utf8` reports for bytes that are not
/// UTF-8; carried through as an opaque value.
#[verifier::external_type_specification]
#[verifier::external_body]
pub struct ExUtf8Error(std::str::Utf8Error);

/// Error type for this crate.
#[derive(Debug)]
pub enum Error {
    /// A magic value did not match: found, expected.
    BadMagic(String, &'static str),
    /// Not enough data: found, expected at least.
    InsufficientData(usize, usize),
    /// Invalid data, with a fixed description.
    InvalidData(&'static str),
    /// Invalid data, with a built description.
    InvalidDataD(String),
    /// A value had the wrong type: found, expected.
    TypeError(String, &'static str),
    /// A name was not valid UTF-8.
    InvalidUtf8(std::str::Utf8Error),
    /// Any other error.
    Any(String),
}

/// Result type for this crate.
pub type Result<T> = std::result::Result<T, Error>;

} // verus!
