//! EPUB reading: the archive and its package document, stylesheets, and the
//! checks and writing-mode inference on content documents.

pub mod css;
pub mod opf;
pub mod package;
pub mod xhtml;
pub mod viewport;
