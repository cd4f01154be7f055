//! The documents that the index and the search work on.
use vstd::prelude::*;

verus! {

/// One parsed note.
#[derive(Debug, Clone, PartialEq, Eq)]
pub struct Document {
    pub id: usize,
    pub path: String,
    pub file_name: String,
    pub title: String,
    pub headings: Vec<String>,
    pub tags: Vec<String>,
    pub modified: u64,
    pub body: String,
    pub sections: Vec<Section>,
}

/// A heading with the text under it.
#[derive(Debug, Clone, PartialEq, Eq)]
pub struct Section {
    pub heading: String,
    pub level: u8,
    pub body: String,
}

/// The part of a document in which a term occurs.
#[derive(Debug, Clone, Copy, PartialEq, Eq, Hash)]
pub enum Field {
    Title,
    Tag,
    Heading,
    Body,
    FileName,
}

} // verus!
