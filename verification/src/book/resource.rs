//! Manifest resources.

use vstd::prelude::*;

verus! {

/// One manifest resource and its bytes.
#[derive(Debug, Clone)]
pub struct Resource {
    pub id: String,
    pub href: String,
    pub media_type: String,
    pub properties: Vec<String>,
    pub data: Vec<u8>,
}

/// The manifest resources.
#[derive(Debug, Clone, Default)]
pub struct Resources {
    pub items: Vec<Resource>,
}

} // verus!
