//! XHTML scanning and href/path syntax.

pub mod path;
pub mod scan;
