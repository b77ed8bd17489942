//! Reading, renaming and repacking EPUB containers.
//!
//! The library parses the package document of an EPUB archive, derives a new
//! file name for every manifest resource (obfuscated or readable), rewrites the
//! references between resources, and writes the archive back.

pub mod text;
pub mod error;
pub mod parser;
pub mod encrypt;
pub mod archive;
pub mod container;
pub mod decrypt;
pub mod fallback;
pub mod mapping;
pub mod paths;
pub mod rewrite;
pub mod writer;
pub mod xml;
pub mod xml_utils;
