//! Package metadata.

use vstd::prelude::*;
use crate::strings::opt_text;

verus! {

/// Dublin Core and rendition metadata of the package.
#[derive(Debug, Clone, Default)]
pub struct Metadata {
    pub title: Option<String>,
    pub creator: Option<String>,
    pub language: Option<String>,
    pub identifier: Option<String>,
    pub publisher: Option<String>,
    pub description: Option<String>,
    pub cover: Option<String>,
    pub is_fixed_layout: bool,
    pub primary_writing_mode: Option<String>,
    pub book_type: Option<String>,
    pub orientation: Option<String>,
    pub orientation_lock: Option<String>,
    pub original_resolution: Option<String>,
}

/// The metadata as mathematical values.
#[verifier::ext_equal]
pub struct MetadataView {
    pub title: Option<Seq<char>>,
    pub creator: Option<Seq<char>>,
    pub language: Option<Seq<char>>,
    pub identifier: Option<Seq<char>>,
    pub publisher: Option<Seq<char>>,
    pub description: Option<Seq<char>>,
    pub cover: Option<Seq<char>>,
    pub is_fixed_layout: bool,
    pub primary_writing_mode: Option<Seq<char>>,
    pub book_type: Option<Seq<char>>,
    pub orientation: Option<Seq<char>>,
    pub orientation_lock: Option<Seq<char>>,
    pub original_resolution: Option<Seq<char>>,
}

impl View for Metadata {
    type V = MetadataView;

    open spec fn view(&self) -> MetadataView {
        MetadataView {
            title: opt_text(self.title),
            creator: opt_text(self.creator),
            language: opt_text(self.language),
            identifier: opt_text(self.identifier),
            publisher: opt_text(self.publisher),
            description: opt_text(self.description),
            cover: opt_text(self.cover),
            is_fixed_layout: self.is_fixed_layout,
            primary_writing_mode: opt_text(self.primary_writing_mode),
            book_type: opt_text(self.book_type),
            orientation: opt_text(self.orientation),
            orientation_lock: opt_text(self.orientation_lock),
            original_resolution: opt_text(self.original_resolution),
        }
    }
}

/// The metadata of a package that declares nothing.
pub open spec fn empty_metadata() -> MetadataView {
    MetadataView {
        title: None,
        creator: None,
        language: None,
        identifier: None,
        publisher: None,
        description: None,
        cover: None,
        is_fixed_layout: false,
        primary_writing_mode: None,
        book_type: None,
        orientation: None,
        orientation_lock: None,
        original_resolution: None,
    }
}

/// Metadata that declares nothing.
pub fn new_metadata() -> (r: Metadata)
    ensures
        r@ == empty_metadata(),
{
    Metadata {
        title: None,
        creator: None,
        language: None,
        identifier: None,
        publisher: None,
        description: None,
        cover: None,
        is_fixed_layout: false,
        primary_writing_mode: None,
        book_type: None,
        orientation: None,
        orientation_lock: None,
        original_resolution: None,
    }
}

} // verus!
