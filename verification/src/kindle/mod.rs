//! The Kindle-specific book model and cover lowering.

pub mod cover;
pub mod css;
pub mod ir;
pub mod normalize;

pub use ir::{
    KindleBook, KindleLandmark, KindleLayout, KindleLayoutSemantic, KindleMetadata,
    KindleNavigationItem, KindleResource, KindleSection,
};
