//! The semantic book model read from an EPUB package.

pub mod content;
pub mod layout;
pub mod metadata;
pub mod resource;
pub mod style;

use vstd::prelude::*;

pub use content::ContentDocument;
pub use layout::{Direction, Layout, PageProgression, WritingMode};
pub use metadata::Metadata;
pub use resource::{Resource, Resources};
pub use style::{ComputedStyle, CssDeclaration, CssRule, StyleSheet, Styles};

verus! {

/// The spine reading order.
#[derive(Debug, Clone, Default)]
pub struct ReadingOrder {
    pub items: Vec<ReadingOrderItem>,
    /// Page progression declared by the spine.
    pub page_progression: PageProgression,
}

/// One spine item.
#[derive(Debug, Clone)]
pub struct ReadingOrderItem {
    pub id: String,
    pub href: String,
    pub media_type: String,
    pub linear: bool,
}

/// The navigation of the book: its table of contents and landmarks.
#[derive(Debug, Default)]
pub struct Navigation {
    pub title: Option<String>,
    pub items: Vec<NavigationItem>,
    /// Semantic routes from the EPUB navigation landmarks section.
    pub landmarks: Vec<NavigationLandmark>,
}

/// One navigation landmark.
#[derive(Debug, Clone, Default)]
pub struct NavigationLandmark {
    pub kind: String,
    pub label: String,
    pub href: String,
}

/// One table-of-contents entry and its children.
#[derive(Debug, Default)]
pub struct NavigationItem {
    pub label: String,
    pub href: String,
    pub children: Vec<NavigationItem>,
}

/// The semantic book read from an EPUB: metadata, reading order,
/// navigation, content documents, resources, layout and stylesheets.
#[derive(Debug, Default)]
pub struct Book {
    pub metadata: Metadata,
    pub reading_order: ReadingOrder,
    pub navigation: Navigation,
    pub content: Vec<ContentDocument>,
    pub resources: Resources,
    pub layout: Layout,
    pub styles: Styles,
}

} // verus!
