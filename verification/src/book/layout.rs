//! Writing mode, page progression, direction and rendition semantics.

use vstd::prelude::*;

verus! {

/// The block flow of the text.
#[derive(Debug, Clone, Copy, PartialEq, Eq, Default)]
pub enum WritingMode {
    #[default]
    HorizontalTb,
    VerticalRl,
    VerticalLr,
}

/// The order in which pages advance.
#[derive(Debug, Clone, Copy, PartialEq, Eq, Default)]
pub enum PageProgression {
    #[default]
    Default,
    Ltr,
    Rtl,
}

/// The inline base direction.
#[derive(Debug, Clone, Copy, PartialEq, Eq, Default)]
pub enum Direction {
    #[default]
    Default,
    Ltr,
    Rtl,
}

/// `rendition:orientation`.
#[derive(Debug, Clone, Copy, PartialEq, Eq)]
pub enum RenditionOrientation {
    Auto,
    Portrait,
    Landscape,
}

/// `rendition:spread`.
#[derive(Debug, Clone, Copy, PartialEq, Eq)]
pub enum RenditionSpread {
    Auto,
    /// `rendition:spread none`.
    NoSpread,
    Landscape,
    Portrait,
    Both,
}

/// `rendition:flow`.
#[derive(Debug, Clone, Copy, PartialEq, Eq)]
pub enum RenditionFlow {
    Auto,
    Paginated,
    ScrolledContinuous,
    ScrolledDoc,
}

/// `rendition:align-x-center`.
#[derive(Debug, Clone, Copy, PartialEq, Eq)]
pub enum RenditionAlign {
    Center,
}

/// `page-spread-*` spine properties.
#[derive(Debug, Clone, Copy, PartialEq, Eq)]
pub enum PageSpread {
    Left,
    Right,
    Center,
}

/// Rendition properties of a package or spine item.
#[derive(Debug, Clone, Copy, PartialEq, Eq, Default)]
pub struct RenditionSemantics {
    pub orientation: Option<RenditionOrientation>,
    pub spread: Option<RenditionSpread>,
    pub flow: Option<RenditionFlow>,
    pub align_x: Option<RenditionAlign>,
    pub page_spread: Option<PageSpread>,
}

/// The book layout.
#[derive(Debug, Clone, Copy, PartialEq, Eq, Default)]
pub struct Layout {
    pub writing_mode: WritingMode,
    pub page_progression: PageProgression,
    pub direction: Direction,
}

} // verus!
