//! Readers and writers for two binary container formats used in Nintendo
//! EAD/EPD titles: BYML, a binary tagged document tree, and SARC, a simple
//! keyed archive of named files. Both formats come in little- and big-endian
//! variants and rely on sorted, offset-indexed tables for binary search.

use vstd::prelude::*;

pub mod byml;
pub mod byml_parser;
pub mod byml_writer;
pub mod sarc;
pub mod sarc_writer;
pub mod util;

verus! {

/// Byte order of a BYML document or SARC archive.
///
/// In the game ROM, big endian is used for Wii U and little endian for
/// Switch.
#[derive(Debug, Clone, Copy, PartialEq, Eq, Structural, Hash)]
pub enum Endian {
    /// Big endian (Wii U).
    Big,
    /// Little endian (Switch).
    Little,
}

/// Error type for this crate.
#[derive(Debug, Clone, Copy, PartialEq)]
pub enum Error {
    /// A magic value at the start of a document was not the expected one.
    BadMagic(&'static str),
    /// A BYML version outside the accepted range.
    InvalidVersion(u16),
    /// The buffer is shorter than a field or record requires:
    /// (found, expected at least).
    InsufficientData(usize, usize),
    /// A structural violation, with a short reason.
    InvalidData(&'static str),
    /// An accessor asked for a variant the value is not:
    /// (found, expected).
    TypeError(&'static str, &'static str),
    /// NUL-terminated bytes in a string table are not valid UTF-8.
    InvalidUtf8,
}

impl Error {
    /// A short human-readable description of the error.
    pub fn message(&self) -> &'static str {
        match self {
            Error::BadMagic(_) => "bad magic value",
            Error::InvalidVersion(_) => "invalid version",
            Error::InsufficientData(_, _) => "data too short",
            Error::InvalidData(m) => m,
            Error::TypeError(_, _) => "incorrect node type",
            Error::InvalidUtf8 => "invalid UTF-8",
        }
    }
}

pub type Result<T> = core::result::Result<T, Error>;

} // verus!
