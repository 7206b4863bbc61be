//! Content documents as the Kindle normalization reads them.

use vstd::prelude::*;

verus! {

/// One content document of the reading order: its manifest id and href, its
/// XHTML source, the stylesheets it links, whether it is a cover document
/// and whether it is laid out as fixed pages.
#[derive(Debug, Clone)]
pub struct ContentDocument {
    pub id: String,
    pub href: String,
    pub source_xhtml: String,
    pub referenced_styles: Vec<String>,
    pub is_cover: bool,
    pub pre_paginated: bool,
}

impl ContentDocument {
    /// Whether the document is laid out as fixed pages.
    pub fn is_pre_paginated(&self) -> (r: bool)
        ensures
            r == self.pre_paginated,
    {
        self.pre_paginated
    }
}

} // verus!
