//! KF8 record encoders and the text-record pipeline.

pub mod wire;
pub mod format;
pub mod exth;
pub mod fcis;
pub mod vwi;
pub mod indx;
pub mod fdst;
pub mod palmdoc;
pub mod div;
pub mod skel;
pub mod fragment;
pub mod guide;
pub mod compress;
pub mod text;
pub mod tbs;
pub mod resource;
pub mod builder;
pub mod serializer;
pub mod css_flow;
