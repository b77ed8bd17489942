//! The error type of the library.
use vstd::prelude::*;
use crate::text::{chars_of, push_all, string_of};

verus! {

/// Why an operation on a container failed.
#[derive(Debug, Clone)]
pub enum EpubError {
    /// Reading or writing bytes failed.
    Io(String),
    /// The archive is not a valid ZIP, or a member could not be had.
    Zip(String),
    /// A document could not be parsed, even after repair.
    Xml(String),
    /// A required part of the container or package is missing.
    Structure(String),
    /// Name hashing failed.
    Crypto(String),
    /// Anything else.
    Other(String),
}

/// The prefix that the message of each kind of error starts with.
pub open spec fn message_prefix(e: EpubError) -> Seq<char> {
    match e {
        EpubError::Io(_) => "IO error: "@,
        EpubError::Zip(_) => "ZIP error: "@,
        EpubError::Xml(_) => "XML error: "@,
        EpubError::Structure(_) => "EPUB structure error: "@,
        EpubError::Crypto(_) => "Crypto error: "@,
        EpubError::Other(_) => Seq::empty(),
    }
}

/// The detail text an error carries.
pub open spec fn detail(e: EpubError) -> Seq<char> {
    match e {
        EpubError::Io(s) => s@,
        EpubError::Zip(s) => s@,
        EpubError::Xml(s) => s@,
        EpubError::Structure(s) => s@,
        EpubError::Crypto(s) => s@,
        EpubError::Other(s) => s@,
    }
}

impl EpubError {
    /// The human-readable message: a prefix naming the kind, then the detail.
    pub fn message(&self) -> (r: String)
        ensures
            r@ == message_prefix(*self) + detail(*self),
    {
        let (prefix, d) = match self {
            EpubError::Io(s) => (chars_of("IO error: "), s),
            EpubError::Zip(s) => (chars_of("ZIP error: "), s),
            EpubError::Xml(s) => (chars_of("XML error: "), s),
            EpubError::Structure(s) => (chars_of("EPUB structure error: "), s),
            EpubError::Crypto(s) => (chars_of("Crypto error: "), s),
            EpubError::Other(s) => (Vec::new(), s),
        };
        let mut out = prefix;
        push_all(&mut out, chars_of(d.as_str()).as_slice());
        string_of(out.as_slice())
    }
}

} // verus!
