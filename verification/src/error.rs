//! The error type shared by every conversion stage.

use vstd::prelude::*;

verus! {

/// The operating-system error carried by [`Error::Io`].
#[verifier::external_type_specification]
#[verifier::external_body]
pub struct ExIoError(std::io::Error);

/// Errors that can occur while reading, converting, or writing a book.
#[derive(Debug)]
pub enum Error {
    /// An input or output I/O operation failed.
    Io {
        /// The input or output path, or a description of the affected stream.
        path: String,
        /// The underlying operating-system I/O error.
        source: std::io::Error,
    },
    /// The input bytes are not a valid EPUB package.
    InvalidEpub(String),
    /// The requested input form is not supported by the conversion API.
    UnsupportedInput(String),
    /// The EPUB uses a package structure that this parser does not support.
    UnsupportedEpub(String),
    /// XHTML or CSS could not be interpreted during EPUB semantic extraction.
    InvalidXhtmlCss(String),
    /// The parsed EPUB could not be normalized into the Kindle-specific IR.
    KindleNormalization(String),
    /// The Kindle IR could not be assembled into KF8 records.
    Kf8Build(String),
    /// The assembled records could not be encoded into a PalmDB/AZW3 container.
    Container(String),
    /// A requested conversion option is not supported.
    UnsupportedOption(String),
    /// XML parsing failed while reading EPUB package or document metadata.
    Xml(String),
    /// The EPUB ZIP archive could not be opened or read.
    Zip(String),
    /// A required output representation or KF8 invariant could not be produced.
    Output(String),
}

/// Build an [`Error::Output`] carrying `message`.
pub fn output_error(message: &str) -> (e: Error)
    ensures
        e matches Error::Output(m) && m@ == message@,
{
    Error::Output(message.to_owned())
}

} // verus!
