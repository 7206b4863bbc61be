//! Convert AozoraEpub3-generated EPUB files into KF8-only AZW3 files.
//!
//! The library holds the verified parts of the conversion: reading the EPUB
//! archive and its package document (container, manifest, spine, metadata),
//! decoding and checking content documents and stylesheets (encodings,
//! scripting, media, MathML, `srcset`, objects, writing modes), the Kindle
//! normalization pieces (cover links, navigation pruning, the synthetic table
//! of contents, CSS projection), and the KF8 record encoders (PalmDOC text
//! records and compression, INDX/CTOC, EXTH, FDST, FCIS, SKEL, FRAG,
//! trailing-byte sequences, resource geometry), with the command line's
//! decisions.

pub mod api;
pub mod cli;
pub mod book;
pub mod epub;
pub mod error;
pub mod kf8;
pub mod kindle;
pub mod strings;
pub mod xhtml;
pub mod xml;

pub use api::{Compression, ConvertOptions};
pub use error::Error;
