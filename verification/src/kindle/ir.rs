//! The book as the KF8 writer sees it.

use vstd::prelude::*;
use crate::book::layout::{Direction, PageProgression, WritingMode};

verus! {

/// A book normalized for Kindle output.
#[derive(Debug)]
pub struct KindleBook {
    pub metadata: KindleMetadata,
    pub layout: KindleLayout,
    pub sections: Vec<KindleSection>,
    pub navigation: Vec<KindleNavigationItem>,
    pub landmarks: Vec<KindleLandmark>,
    pub resources: Vec<KindleResource>,
}

/// One resource carried into the output.
#[derive(Debug, Clone)]
pub struct KindleResource {
    pub id: String,
    pub href: String,
    pub media_type: String,
    pub properties: Vec<String>,
    pub data: Vec<u8>,
}

/// Metadata written to the EXTH header.
#[derive(Debug, Clone, Default)]
pub struct KindleMetadata {
    pub title: Option<String>,
    pub creator: Option<String>,
    pub language: Option<String>,
    pub identifier: Option<String>,
    pub publisher: Option<String>,
    pub description: Option<String>,
    pub cover_resource_id: Option<String>,
    pub is_fixed_layout: bool,
    pub primary_writing_mode: Option<String>,
    pub book_type: Option<String>,
    pub orientation: Option<String>,
    pub orientation_lock: Option<String>,
    pub original_resolution: Option<String>,
}

/// The normalized layout of the book.
#[derive(Debug, Clone, Copy, PartialEq, Eq)]
pub struct KindleLayout {
    pub writing_mode: WritingMode,
    pub page_progression: PageProgression,
    pub direction: Direction,
}

/// One content document.
#[derive(Debug, Clone)]
pub struct KindleSection {
    pub id: String,
    pub href: String,
    pub source_xhtml: String,
    /// Stylesheet hrefs linked by this document, so that the CSS flow holds
    /// only referenced stylesheets.
    pub referenced_styles: Vec<String>,
    pub linear: bool,
    pub layout: KindleLayoutSemantic,
}

/// Reflowable or fixed-page layout of a section.
#[derive(Debug, Clone, Copy, PartialEq, Eq, Default)]
pub enum KindleLayoutSemantic {
    #[default]
    Reflowable,
    PrePaginated,
}

/// One table-of-contents entry and its children.
#[derive(Debug, Default)]
pub struct KindleNavigationItem {
    pub label: String,
    pub href: String,
    pub children: Vec<KindleNavigationItem>,
}

/// One guide landmark.
#[derive(Debug, Clone, Default)]
pub struct KindleLandmark {
    pub kind: String,
    pub label: String,
    pub href: String,
}

} // verus!
